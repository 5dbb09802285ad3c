//! EtherNet/IP: the 24-byte little-endian encapsulation header and the data it
//! announces. In the two commands that carry a CIP message, the message's service
//! byte is looked up among the data's items; a list that cannot be walked yields no
//! service and is no reason to decline. One stream per session handle.
use vstd::prelude::*;

use crate::bytes::{self, ByteReader, ParseError};
use crate::identity::{
    self, CondenseSpec, Identity, KeyField, RollupKind, RollupSpec, StreamIdentity,
};
use crate::layer::{Confidence, Context, Hint, LayerPlugin, ParseCtx, Parsed, ParsedLayer, RouteId};
use crate::value::{FieldMap, FieldName, Fields, ProtocolName, Value, ValueView};

verus! {

pub const SESSION_HANDLE: FieldName = "session_handle";

pub const COMMAND: FieldName = "command";

pub const LENGTH: FieldName = "length";

pub const STATUS: FieldName = "status";

pub const CIP_SERVICE: FieldName = "cip_service";

pub const CMD_SEND_RR_DATA: u16 = 0x006F;

pub const CMD_SEND_UNIT_DATA: u16 = 0x0070;

/// The item whose data starts with the CIP message.
pub const CPF_UNCONNECTED_DATA: u16 = 0x00B2;

/// The item whose data starts with a 2-byte sequence count ahead of the message.
pub const CPF_CONNECTED_DATA: u16 = 0x00B1;

/// The service byte in the `n` items of `d` from `p` on: each a type, a length
/// and that much data.
pub open spec fn service_in(d: Seq<u8>, p: int, n: int) -> Option<u8>
    decreases n,
{
    let len = bytes::le16(d, p + 2);
    if n <= 0 || d.len() < p + 4 || d.len() < p + 4 + len {
        None
    } else if bytes::le16(d, p) == CPF_UNCONNECTED_DATA {
        if len > 0 {
            Some(d[p + 4])
        } else {
            None
        }
    } else if bytes::le16(d, p) == CPF_CONNECTED_DATA {
        if len > 2 {
            Some(d[p + 6])
        } else {
            None
        }
    } else {
        service_in(d, p + 4 + len, n - 1)
    }
}

/// The service byte of the data: interface handle, timeout, item count, items.
pub open spec fn leading_service(d: Seq<u8>) -> Option<u8> {
    if d.len() < 8 {
        None
    } else {
        service_in(d, 8, bytes::le16(d, 6) as int)
    }
}

pub open spec fn length(b: Seq<u8>) -> int {
    bytes::le16(b, 2) as int
}

pub open spec fn service(b: Seq<u8>) -> Option<u8> {
    if bytes::le16(b, 0) == CMD_SEND_RR_DATA || bytes::le16(b, 0) == CMD_SEND_UNIT_DATA {
        leading_service(b.subrange(24, 24 + length(b)))
    } else {
        None
    }
}

pub open spec fn fields(b: Seq<u8>, ctx: Context) -> Fields {
    let f = Map::<Seq<char>, ValueView>::empty();
    let f = if ctx.keys() {
        f.insert(SESSION_HANDLE@, ValueView::U64(bytes::le32(b, 4) as u64))
    } else {
        f
    };
    let f = if ctx.structural() {
        f
            .insert(COMMAND@, ValueView::U64(bytes::le16(b, 0) as u64))
            .insert(LENGTH@, ValueView::U64(bytes::le16(b, 2) as u64))
            .insert(STATUS@, ValueView::U64(bytes::le32(b, 8) as u64))
    } else {
        f
    };
    if ctx.full() && service(b) is Some {
        f.insert(CIP_SERVICE@, ValueView::U64(service(b)->0 as u64))
    } else {
        f
    }
}

/// The message at the start of `b`.
pub open spec fn message(b: Seq<u8>, ctx: Context) -> Result<Parsed, ParseError> {
    if b.len() < 4 {
        Err(bytes::short(b, b.len() - b.len() % 2, 2))
    } else if b.len() < 12 {
        Err(bytes::short(b, b.len() - b.len() % 4, 4))
    } else if b.len() < 20 {
        Err(bytes::short(b, 12, 8))
    } else if b.len() < 24 {
        Err(bytes::short(b, 20, 4))
    } else if bytes::le32(b, 20) != 0 {
        Err(ParseError::Malformed("Encapsulation Options is reserved and must be 0"))
    } else if b.len() < 24 + length(b) {
        Err(bytes::short(b, 24, length(b)))
    } else {
        Ok(Parsed { header_len: 24 + length(b), fields: fields(b, ctx), hint: Hint::Terminal })
    }
}

fn leading_cip_service(d: &[u8]) -> (r: Option<u8>)
    ensures
        r == leading_service(d@),
{
    let n: usize = d.len();
    if n < 8 {
        return None;
    }
    let count: u16 = d[7] as u16 * 0x100 + d[6] as u16;
    let mut p: usize = 8;
    let mut i: u16 = 0;
    while i < count
        invariant
            n == d@.len(),
            i <= count,
            p <= n,
            leading_service(d@) == service_in(d@, p as int, count - i),
        decreases count - i,
    {
        if n - p < 4 {
            return None;
        }
        let kind: u16 = d[p + 1] as u16 * 0x100 + d[p] as u16;
        let len: usize = d[p + 3] as usize * 0x100 + d[p + 2] as usize;
        if n - p - 4 < len {
            return None;
        }
        if kind == CPF_UNCONNECTED_DATA {
            return if len > 0 {
                Some(d[p + 4])
            } else {
                None
            };
        }
        if kind == CPF_CONNECTED_DATA {
            return if len > 2 {
                Some(d[p + 6])
            } else {
                None
            };
        }
        p = p + 4 + len;
        i = i + 1;
    }
    None
}

pub struct Enip;

impl LayerPlugin for Enip {
    open spec fn spec_parse(&self, bytes: Seq<u8>, ctx: Context) -> Result<Parsed, ParseError> {
        message(bytes, ctx)
    }

    open spec fn spec_name(&self) -> Seq<char> {
        "enip"@
    }

    open spec fn spec_claims(&self) -> Seq<RouteId> {
        seq![RouteId::TcpPort(44818)]
    }

    open spec fn spec_identity(&self) -> Option<Identity> {
        identity::conversation_of(
            seq![KeyField { a: SESSION_HANDLE, b: None }],
            seq![RollupSpec { field: COMMAND, kind: RollupKind::Accumulate }],
        )
    }

    open spec fn spec_condense(&self) -> Option<CondenseSpec> {
        None
    }

    open spec fn spec_has_probe(&self) -> bool {
        false
    }

    open spec fn spec_probe(&self, bytes: Seq<u8>, ctx: Context) -> Option<u8> {
        None
    }

    open spec fn spec_predecessors(&self) -> Seq<ProtocolName> {
        Seq::empty()
    }

    fn name(&self) -> (r: ProtocolName) {
        "enip"
    }

    fn parse(&self, bytes: &[u8], ctx: &ParseCtx) -> (r: Result<ParsedLayer, ParseError>) {
        let mut r = ByteReader::new(bytes);
        let command: u16 = r.u16_le()?;
        let length: u16 = r.u16_le()?;
        let session_handle: u32 = r.u32_le()?;
        let status: u32 = r.u32_le()?;
        let _sender_context = r.take(8)?;
        let options: u32 = r.u32_le()?;
        if options != 0 {
            return Err(ParseError::Malformed("Encapsulation Options is reserved and must be 0"));
        }
        let body = r.take(length as usize)?;
        let mut cip_service: Option<u8> = None;
        if command == CMD_SEND_RR_DATA || command == CMD_SEND_UNIT_DATA {
            cip_service = leading_cip_service(body);
        }

        let mut fields = FieldMap::new();
        if ctx.keys() {
            fields.insert(SESSION_HANDLE, Value::U64(session_handle as u64));
        }
        if ctx.structural() {
            fields.insert(COMMAND, Value::U64(command as u64));
            fields.insert(LENGTH, Value::U64(length as u64));
            fields.insert(STATUS, Value::U64(status as u64));
        }
        if ctx.full() {
            if let Some(s) = cip_service {
                fields.insert(CIP_SERVICE, Value::U64(s as u64));
            }
        }
        Ok(ParsedLayer { header_len: bytes.len() - r.remaining(), fields, hint: Hint::Terminal })
    }

    fn claims(&self) -> (r: &'static [RouteId]) {
        &[RouteId::TcpPort(44818)]
    }

    fn stream_identity(&self) -> (r: Option<StreamIdentity>) {
        identity::conversation(
            &[KeyField { a: SESSION_HANDLE, b: None }],
            &[RollupSpec { field: COMMAND, kind: RollupKind::Accumulate }],
        )
    }

    fn condense(&self) -> (r: Option<CondenseSpec>) {
        None
    }

    fn has_probe(&self) -> (r: bool) {
        false
    }

    fn probe(&self, bytes: &[u8], ctx: &ParseCtx) -> (r: Option<Confidence>) {
        None
    }

    fn expected_predecessors(&self) -> (r: &'static [ProtocolName]) {
        &[]
    }
}

} // verus!

//! GTP-U (3GPP TS 29.281), the mobile core's user plane: an 8-byte header, an
//! optional 4-byte block and a chain of extension headers, which is walked for its
//! length alone. A G-PDU carries an IP packet whose version the header does not
//! say; every other message is tunnel management and carries nothing.
use vstd::prelude::*;

use crate::bytes::{self, ByteReader, ParseError};
use crate::identity::{
    self, CondenseSpec, Identity, KeyField, RollupKind, RollupSpec, StreamIdentity,
};
use crate::layer::{Confidence, Context, Hint, LayerPlugin, ParseCtx, Parsed, ParsedLayer, RouteId};
use crate::value::{FieldMap, FieldName, Fields, ProtocolName, Value, ValueView};

verus! {

pub const TEID: FieldName = "teid";

pub const MESSAGE_TYPE: FieldName = "message_type";

pub const FLAGS: FieldName = "flags";

pub const LENGTH: FieldName = "length";

pub const SEQUENCE_NUMBER: FieldName = "sequence_number";

pub const VERSION_MASK: u8 = 0xE0;

pub const VERSION_SHIFT: u8 = 5;

pub const GTP_VERSION_1: u8 = 1;

/// Clear for GTP', which is another protocol.
pub const PT_BIT: u8 = 0x10;

pub const S_BIT: u8 = 0x02;

/// Any of the three flags that bring in the optional block.
pub const OPTIONAL_BITS: u8 = 0x07;

pub const MSG_GPDU: u8 = 255;

/// The end of the extension headers from `p` on, where `kind` is the type of
/// the header at `p`: its length in 4-byte units, its content, the next
/// header's type. Type zero ends the chain.
pub open spec fn extensions_end(b: Seq<u8>, p: int, kind: u8) -> Result<int, ParseError>
    decreases b.len() - p,
{
    if kind == 0 {
        Ok(p)
    } else if p < 0 || b.len() < p + 1 {
        Err(bytes::short(b, p, 1))
    } else if b[p] == 0 {
        Err(ParseError::Malformed("GTP-U: zero-length extension header"))
    } else if b.len() < p + 4 * b[p] - 1 {
        Err(bytes::short(b, p + 1, 4 * b[p] - 2))
    } else if b.len() < p + 4 * b[p] {
        Err(bytes::short(b, p + 4 * b[p] - 1, 1))
    } else {
        extensions_end(b, p + 4 * b[p], b[p + 4 * b[p] - 1])
    }
}

/// Whether the optional block is present.
pub open spec fn has_block(b: Seq<u8>) -> bool {
    b[0] & OPTIONAL_BITS != 0
}

pub open spec fn header_end(b: Seq<u8>) -> Result<int, ParseError> {
    if !has_block(b) {
        Ok(8)
    } else if b.len() < 10 {
        Err(bytes::short(b, 8, 2))
    } else if b.len() < 12 {
        Err(bytes::short(b, b.len() as int, 1))
    } else {
        extensions_end(b, 12, b[11])
    }
}

pub open spec fn fields(b: Seq<u8>, ctx: Context) -> Fields {
    let f = Map::<Seq<char>, ValueView>::empty();
    let f = if ctx.keys() {
        f.insert(TEID@, ValueView::U64(bytes::be32(b, 4) as u64))
    } else {
        f
    };
    let f = if ctx.structural() {
        f.insert(MESSAGE_TYPE@, ValueView::U64(b[1] as u64)).insert(
            FLAGS@,
            ValueView::U64(b[0] as u64),
        ).insert(LENGTH@, ValueView::U64(bytes::be16(b, 2) as u64))
    } else {
        f
    };
    if ctx.full() && has_block(b) && b[0] & S_BIT != 0 {
        f.insert(SEQUENCE_NUMBER@, ValueView::U64(bytes::be16(b, 8) as u64))
    } else {
        f
    }
}

/// The header at the start of `b`.
pub open spec fn message(b: Seq<u8>, ctx: Context) -> Result<Parsed, ParseError> {
    if b.len() < 1 {
        Err(bytes::short(b, 0, 1))
    } else if (b[0] & VERSION_MASK) >> VERSION_SHIFT != GTP_VERSION_1 {
        Err(ParseError::Malformed("GTP-U: unsupported version"))
    } else if b[0] & PT_BIT == 0 {
        Err(ParseError::Malformed("GTP-U: PT bit selects GTP', not GTP"))
    } else if b.len() < 2 {
        Err(bytes::short(b, 1, 1))
    } else if b.len() < 4 {
        Err(bytes::short(b, 2, 2))
    } else if b.len() < 8 {
        Err(bytes::short(b, 4, 4))
    } else {
        match header_end(b) {
            Err(e) => Err(e),
            Ok(end) => Ok(
                Parsed {
                    header_len: end,
                    fields: fields(b, ctx),
                    hint: if b[1] == MSG_GPDU {
                        Hint::Unknown
                    } else {
                        Hint::Terminal
                    },
                },
            ),
        }
    }
}

fn skip_extensions(r: &mut ByteReader, first: u8) -> (res: Result<(), ParseError>)
    requires
        old(r).wf(),
    ensures
        final(r).wf(),
        final(r).data == old(r).data,
        match extensions_end(old(r).data@, old(r).pos as int, first) {
            Ok(end) => res is Ok && final(r).pos == end,
            Err(e) => res is Err && res->Err_0 == e,
        },
{
    let mut kind: u8 = first;
    while kind != 0
        invariant
            r.wf(),
            r.data == old(r).data,
            extensions_end(r.data@, old(r).pos as int, first) == extensions_end(
                r.data@,
                r.pos as int,
                kind,
            ),
        decreases r.data@.len() - r.pos,
    {
        let words: u8 = r.u8()?;
        if words == 0 {
            return Err(ParseError::Malformed("GTP-U: zero-length extension header"));
        }
        let _content = r.take(words as usize * 4 - 2)?;
        kind = r.u8()?;
    }
    Ok(())
}

pub struct GtpU;

impl LayerPlugin for GtpU {
    open spec fn spec_parse(&self, bytes: Seq<u8>, ctx: Context) -> Result<Parsed, ParseError> {
        message(bytes, ctx)
    }

    open spec fn spec_name(&self) -> Seq<char> {
        "gtp_u"@
    }

    open spec fn spec_claims(&self) -> Seq<RouteId> {
        seq![RouteId::UdpPort(2152)]
    }

    open spec fn spec_identity(&self) -> Option<Identity> {
        identity::conversation_of(
            seq![KeyField { a: TEID, b: None }],
            seq![RollupSpec { field: MESSAGE_TYPE, kind: RollupKind::Accumulate }],
        )
    }

    open spec fn spec_condense(&self) -> Option<CondenseSpec> {
        None
    }

    open spec fn spec_has_probe(&self) -> bool {
        false
    }

    open spec fn spec_probe(&self, bytes: Seq<u8>, ctx: Context) -> Option<u8> {
        None
    }

    open spec fn spec_predecessors(&self) -> Seq<ProtocolName> {
        Seq::empty()
    }

    fn name(&self) -> (r: ProtocolName) {
        "gtp_u"
    }

    fn parse(&self, bytes: &[u8], ctx: &ParseCtx) -> (r: Result<ParsedLayer, ParseError>) {
        let mut r = ByteReader::new(bytes);
        let flags: u8 = r.u8()?;
        let version: u8 = (flags & VERSION_MASK) >> VERSION_SHIFT;
        if version != GTP_VERSION_1 {
            return Err(ParseError::Malformed("GTP-U: unsupported version"));
        }
        if flags & PT_BIT == 0 {
            return Err(ParseError::Malformed("GTP-U: PT bit selects GTP', not GTP"));
        }
        let message_type: u8 = r.u8()?;
        let length: u16 = r.u16_be()?;
        let teid: u32 = r.u32_be()?;
        let mut sequence_number: Option<u16> = None;
        if flags & OPTIONAL_BITS != 0 {
            let seq: u16 = r.u16_be()?;
            let _n_pdu_number: u8 = r.u8()?;
            let next: u8 = r.u8()?;
            if flags & S_BIT != 0 {
                sequence_number = Some(seq);
            }
            skip_extensions(&mut r, next)?;
        }

        let mut fields = FieldMap::new();
        if ctx.keys() {
            fields.insert(TEID, Value::U64(teid as u64));
        }
        if ctx.structural() {
            fields.insert(MESSAGE_TYPE, Value::U64(message_type as u64));
            fields.insert(FLAGS, Value::U64(flags as u64));
            fields.insert(LENGTH, Value::U64(length as u64));
        }
        if ctx.full() {
            if let Some(seq) = sequence_number {
                fields.insert(SEQUENCE_NUMBER, Value::U64(seq as u64));
            }
        }
        let hint = if message_type == MSG_GPDU {
            Hint::Unknown
        } else {
            Hint::Terminal
        };
        Ok(ParsedLayer { header_len: r.pos, fields, hint })
    }

    fn claims(&self) -> (r: &'static [RouteId]) {
        &[RouteId::UdpPort(2152)]
    }

    fn stream_identity(&self) -> (r: Option<StreamIdentity>) {
        identity::conversation(
            &[KeyField { a: TEID, b: None }],
            &[RollupSpec { field: MESSAGE_TYPE, kind: RollupKind::Accumulate }],
        )
    }

    fn condense(&self) -> (r: Option<CondenseSpec>) {
        None
    }

    fn has_probe(&self) -> (r: bool) {
        false
    }

    fn probe(&self, bytes: &[u8], ctx: &ParseCtx) -> (r: Option<Confidence>) {
        None
    }

    fn expected_predecessors(&self) -> (r: &'static [ProtocolName]) {
        &[]
    }
}

} // verus!

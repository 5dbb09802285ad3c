//! ERSPAN: mirrored traffic inside GRE. A type II header (version 1) is 8 bytes and
//! always followed by the mirrored Ethernet frame; a type III header (version 2) is
//! 12 bytes, or 20 with the platform subheader, and says what kind of frame
//! follows. One stream per mirror session.
use vstd::prelude::*;

use crate::bytes::{self, ByteReader, ParseError};
use crate::identity::{self, CondenseSpec, Identity, KeyField, StreamIdentity};
use crate::layer::{Confidence, Context, Hint, LayerPlugin, ParseCtx, Parsed, ParsedLayer, RouteId};
use crate::value::{FieldMap, FieldName, Fields, ProtocolName, Value, ValueView};

verus! {

pub const SESSION_ID: FieldName = "session_id";

pub const VERSION: FieldName = "version";

pub const VLAN: FieldName = "vlan";

pub const COS: FieldName = "cos";

pub const TRUNCATED: FieldName = "truncated";

pub const INDEX: FieldName = "index";

pub const TIMESTAMP: FieldName = "timestamp";

pub const SGT: FieldName = "sgt";

pub const FRAME_TYPE: FieldName = "frame_type";

pub open spec fn version(b: Seq<u8>) -> u16 {
    bytes::be16(b, 0) >> 12
}

pub open spec fn common_fields(b: Seq<u8>, ctx: Context) -> Fields {
    let f = Map::<Seq<char>, ValueView>::empty();
    let f = if ctx.keys() {
        f.insert(SESSION_ID@, ValueView::U64((bytes::be16(b, 2) & 0x03FF) as u64))
    } else {
        f
    };
    if ctx.structural() {
        f.insert(VERSION@, ValueView::U64(version(b) as u64)).insert(
            VLAN@,
            ValueView::U64((bytes::be16(b, 0) & 0x0FFF) as u64),
        ).insert(COS@, ValueView::U64((bytes::be16(b, 2) >> 13) as u64))
    } else {
        f
    }
}

pub open spec fn truncated(b: Seq<u8>) -> ValueView {
    ValueView::Bool(bytes::be16(b, 2) & 0x0400 != 0)
}

pub open spec fn type_ii(b: Seq<u8>, ctx: Context) -> Result<Parsed, ParseError> {
    let f = common_fields(b, ctx);
    if b.len() < 8 {
        Err(bytes::short(b, 4, 4))
    } else {
        Ok(
            Parsed {
                header_len: 8,
                fields: if ctx.full() {
                    f.insert(
                        INDEX@,
                        ValueView::U64((bytes::be32(b, 4) & 0x000F_FFFF) as u64),
                    ).insert(TRUNCATED@, truncated(b))
                } else {
                    f
                },
                hint: Hint::ByProtocol("ethernet"),
            },
        )
    }
}

/// The kind of the mirrored frame: zero is Ethernet.
pub open spec fn frame_type(b: Seq<u8>) -> u16 {
    (bytes::be16(b, 10) >> 10) & 0x1F
}

pub open spec fn has_subheader(b: Seq<u8>) -> bool {
    bytes::be16(b, 10) & 0x0001 != 0
}

pub open spec fn type_iii(b: Seq<u8>, ctx: Context) -> Result<Parsed, ParseError> {
    let f = common_fields(b, ctx);
    if b.len() < 8 {
        Err(bytes::short(b, 4, 4))
    } else if b.len() < 10 {
        Err(bytes::short(b, 8, 2))
    } else if b.len() < 12 {
        Err(bytes::short(b, 10, 2))
    } else if has_subheader(b) && b.len() < 20 {
        Err(bytes::short(b, 12, 8))
    } else {
        Ok(
            Parsed {
                header_len: if has_subheader(b) {
                    20
                } else {
                    12
                },
                fields: if ctx.full() {
                    f.insert(TIMESTAMP@, ValueView::U64(bytes::be32(b, 4) as u64)).insert(
                        SGT@,
                        ValueView::U64(bytes::be16(b, 8) as u64),
                    ).insert(FRAME_TYPE@, ValueView::U64(frame_type(b) as u64)).insert(
                        TRUNCATED@,
                        truncated(b),
                    )
                } else {
                    f
                },
                hint: if frame_type(b) == 0 {
                    Hint::ByProtocol("ethernet")
                } else {
                    Hint::Unknown
                },
            },
        )
    }
}

/// The header at the start of `b`.
pub open spec fn message(b: Seq<u8>, ctx: Context) -> Result<Parsed, ParseError> {
    if b.len() < 2 {
        Err(bytes::short(b, 0, 2))
    } else if b.len() < 4 {
        Err(bytes::short(b, 2, 2))
    } else if version(b) == 1 {
        type_ii(b, ctx)
    } else if version(b) == 2 {
        type_iii(b, ctx)
    } else {
        Err(ParseError::Malformed("ERSPAN: unknown version"))
    }
}

pub struct Erspan;

impl LayerPlugin for Erspan {
    open spec fn spec_parse(&self, bytes: Seq<u8>, ctx: Context) -> Result<Parsed, ParseError> {
        message(bytes, ctx)
    }

    open spec fn spec_name(&self) -> Seq<char> {
        "erspan"@
    }

    open spec fn spec_claims(&self) -> Seq<RouteId> {
        seq![RouteId::EtherType(0x88BE), RouteId::EtherType(0x22EB)]
    }

    open spec fn spec_identity(&self) -> Option<Identity> {
        identity::conversation_of(
            seq![KeyField { a: SESSION_ID, b: None }],
            Seq::empty(),
        )
    }

    open spec fn spec_condense(&self) -> Option<CondenseSpec> {
        None
    }

    open spec fn spec_has_probe(&self) -> bool {
        false
    }

    open spec fn spec_probe(&self, bytes: Seq<u8>, ctx: Context) -> Option<u8> {
        None
    }

    open spec fn spec_predecessors(&self) -> Seq<ProtocolName> {
        Seq::empty()
    }

    fn name(&self) -> (r: ProtocolName) {
        "erspan"
    }

    fn parse(&self, bytes: &[u8], ctx: &ParseCtx) -> (r: Result<ParsedLayer, ParseError>) {
        let mut r = ByteReader::new(bytes);
        let ver_vlan: u16 = r.u16_be()?;
        let version: u16 = ver_vlan >> 12;
        let word2: u16 = r.u16_be()?;
        let truncated: bool = word2 & 0x0400 != 0;

        let mut fields = FieldMap::new();
        if ctx.keys() {
            fields.insert(SESSION_ID, Value::U64((word2 & 0x03FF) as u64));
        }
        if ctx.structural() {
            fields.insert(VERSION, Value::U64(version as u64));
            fields.insert(VLAN, Value::U64((ver_vlan & 0x0FFF) as u64));
            fields.insert(COS, Value::U64((word2 >> 13) as u64));
        }
        let mut hint = Hint::ByProtocol("ethernet");
        if version == 1 {
            let word: u32 = r.u32_be()?;
            if ctx.full() {
                fields.insert(INDEX, Value::U64((word & 0x000F_FFFF) as u64));
            }
        } else if version == 2 {
            let timestamp: u32 = r.u32_be()?;
            let sgt: u16 = r.u16_be()?;
            let last: u16 = r.u16_be()?;
            let frame_type: u16 = (last >> 10) & 0x1F;
            if last & 0x0001 != 0 {
                let _subheader = r.take(8)?;
            }
            if ctx.full() {
                fields.insert(TIMESTAMP, Value::U64(timestamp as u64));
                fields.insert(SGT, Value::U64(sgt as u64));
                fields.insert(FRAME_TYPE, Value::U64(frame_type as u64));
            }
            if frame_type != 0 {
                hint = Hint::Unknown;
            }
        } else {
            return Err(ParseError::Malformed("ERSPAN: unknown version"));
        }
        if ctx.full() {
            fields.insert(TRUNCATED, Value::Bool(truncated));
        }
        Ok(ParsedLayer { header_len: r.pos, fields, hint })
    }

    fn claims(&self) -> (r: &'static [RouteId]) {
        &[RouteId::EtherType(0x88BE), RouteId::EtherType(0x22EB)]
    }

    fn stream_identity(&self) -> (r: Option<StreamIdentity>) {
        identity::conversation(
            &[KeyField { a: SESSION_ID, b: None }],
            &[],
        )
    }

    fn condense(&self) -> (r: Option<CondenseSpec>) {
        None
    }

    fn has_probe(&self) -> (r: bool) {
        false
    }

    fn probe(&self, bytes: &[u8], ctx: &ParseCtx) -> (r: Option<Confidence>) {
        None
    }

    fn expected_predecessors(&self) -> (r: &'static [ProtocolName]) {
        &[]
    }
}

} // verus!

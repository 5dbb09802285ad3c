//! Geneve (RFC 8926): a tunnel whose header names the next protocol by its
//! EtherType. The options behind the 8 fixed bytes belong to the header and are kept
//! as they are. One stream per virtual network.
use vstd::prelude::*;

use crate::bytes::{self, ByteReader, ParseError};
use crate::identity::{
    self, CondenseSpec, Identity, KeyField, RollupKind, RollupSpec, StreamIdentity,
};
use crate::layer::{Confidence, Context, Hint, LayerPlugin, ParseCtx, Parsed, ParsedLayer, RouteId};
use crate::value::{FieldMap, FieldName, Fields, ProtocolName, Value, ValueView};

verus! {

pub const VNI: FieldName = "vni";

pub const VERSION: FieldName = "version";

pub const OPT_LEN: FieldName = "opt_len";

pub const O_BIT: FieldName = "o_bit";

pub const C_BIT: FieldName = "c_bit";

pub const PROTOCOL_TYPE: FieldName = "protocol_type";

pub const OPTIONS: FieldName = "options";

pub const SUPPORTED_VERSION: u8 = 0;

pub const O_FLAG: u8 = 0x80;

pub const C_FLAG: u8 = 0x40;

/// The options' length in 4-byte words.
pub open spec fn opt_len(b: Seq<u8>) -> u8 {
    b[0] & 0x3F
}

pub open spec fn header_end(b: Seq<u8>) -> int {
    8 + opt_len(b) * 4
}

pub open spec fn fields(b: Seq<u8>, ctx: Context) -> Fields {
    let f = Map::<Seq<char>, ValueView>::empty();
    let f = if ctx.keys() {
        f.insert(VNI@, ValueView::U64(bytes::be24(b, 4) as u64))
    } else {
        f
    };
    let f = if ctx.structural() {
        f
            .insert(VERSION@, ValueView::U64((b[0] >> 6) as u64))
            .insert(OPT_LEN@, ValueView::U64(opt_len(b) as u64))
            .insert(O_BIT@, ValueView::Bool(b[1] & O_FLAG != 0))
            .insert(C_BIT@, ValueView::Bool(b[1] & C_FLAG != 0))
            .insert(PROTOCOL_TYPE@, ValueView::U64(bytes::be16(b, 2) as u64))
    } else {
        f
    };
    if ctx.full() {
        f.insert(OPTIONS@, ValueView::Bytes(b.subrange(8, header_end(b))))
    } else {
        f
    }
}

/// The header at the start of `b`.
pub open spec fn message(b: Seq<u8>, ctx: Context) -> Result<Parsed, ParseError> {
    if b.len() < 1 {
        Err(bytes::short(b, 0, 1))
    } else if b[0] >> 6 != SUPPORTED_VERSION {
        Err(ParseError::Malformed("Geneve version is not 0"))
    } else if b.len() < 2 {
        Err(bytes::short(b, 1, 1))
    } else if b.len() < 4 {
        Err(bytes::short(b, 2, 2))
    } else if b.len() < 7 {
        Err(bytes::short(b, 4, 3))
    } else if b.len() < 8 {
        Err(bytes::short(b, 7, 1))
    } else if b.len() < header_end(b) {
        Err(bytes::short(b, 8, header_end(b) - 8))
    } else {
        Ok(
            Parsed {
                header_len: header_end(b),
                fields: fields(b, ctx),
                hint: Hint::Route(RouteId::EtherType(bytes::be16(b, 2))),
            },
        )
    }
}

pub struct Geneve;

impl LayerPlugin for Geneve {
    open spec fn spec_parse(&self, bytes: Seq<u8>, ctx: Context) -> Result<Parsed, ParseError> {
        message(bytes, ctx)
    }

    open spec fn spec_name(&self) -> Seq<char> {
        "geneve"@
    }

    open spec fn spec_claims(&self) -> Seq<RouteId> {
        seq![RouteId::UdpPort(6081)]
    }

    open spec fn spec_identity(&self) -> Option<Identity> {
        identity::conversation_of(
            seq![KeyField { a: VNI, b: None }],
            seq![RollupSpec { field: PROTOCOL_TYPE, kind: RollupKind::Accumulate }],
        )
    }

    open spec fn spec_condense(&self) -> Option<CondenseSpec> {
        None
    }

    open spec fn spec_has_probe(&self) -> bool {
        false
    }

    open spec fn spec_probe(&self, bytes: Seq<u8>, ctx: Context) -> Option<u8> {
        None
    }

    open spec fn spec_predecessors(&self) -> Seq<ProtocolName> {
        Seq::empty()
    }

    fn name(&self) -> (r: ProtocolName) {
        "geneve"
    }

    fn parse(&self, bytes: &[u8], ctx: &ParseCtx) -> (r: Result<ParsedLayer, ParseError>) {
        let mut r = ByteReader::new(bytes);
        let ver_optlen: u8 = r.u8()?;
        let version: u8 = ver_optlen >> 6;
        if version != SUPPORTED_VERSION {
            return Err(ParseError::Malformed("Geneve version is not 0"));
        }
        let opt_len: u8 = ver_optlen & 0x3F;
        let flags: u8 = r.u8()?;
        let protocol_type: u16 = r.u16_be()?;
        let vni: u32 = r.u24_be()?;
        let _reserved: u8 = r.u8()?;
        let options = r.take(opt_len as usize * 4)?;

        let mut fields = FieldMap::new();
        if ctx.keys() {
            fields.insert(VNI, Value::U64(vni as u64));
        }
        if ctx.structural() {
            fields.insert(VERSION, Value::U64(version as u64));
            fields.insert(OPT_LEN, Value::U64(opt_len as u64));
            fields.insert(O_BIT, Value::Bool(flags & O_FLAG != 0));
            fields.insert(C_BIT, Value::Bool(flags & C_FLAG != 0));
            fields.insert(PROTOCOL_TYPE, Value::U64(protocol_type as u64));
        }
        if ctx.full() {
            fields.insert(OPTIONS, Value::from(options));
        }
        Ok(
            ParsedLayer {
                header_len: r.pos,
                fields,
                hint: Hint::Route(RouteId::EtherType(protocol_type)),
            },
        )
    }

    fn claims(&self) -> (r: &'static [RouteId]) {
        &[RouteId::UdpPort(6081)]
    }

    fn stream_identity(&self) -> (r: Option<StreamIdentity>) {
        identity::conversation(
            &[KeyField { a: VNI, b: None }],
            &[RollupSpec { field: PROTOCOL_TYPE, kind: RollupKind::Accumulate }],
        )
    }

    fn condense(&self) -> (r: Option<CondenseSpec>) {
        None
    }

    fn has_probe(&self) -> (r: bool) {
        false
    }

    fn probe(&self, bytes: &[u8], ctx: &ParseCtx) -> (r: Option<Confidence>) {
        None
    }

    fn expected_predecessors(&self) -> (r: &'static [ProtocolName]) {
        &[]
    }
}

} // verus!

//! Ethernet II: the usual entry point of a capture, and the MAC conversations. A
//! type field below 0x0600 is an IEEE 802.3 length, and an LLC header follows.
use vstd::prelude::*;

use crate::bytes::{self, ByteReader, ParseError};
use crate::identity::{
    self, CondenseSpec, Identity, KeyField, RollupKind, RollupSpec, StreamIdentity,
};
use crate::layer::{Confidence, Context, Hint, LayerPlugin, ParseCtx, Parsed, ParsedLayer, RouteId};
use crate::value::{FieldMap, FieldName, Fields, ProtocolName, Value, ValueView};

verus! {

pub const SRC_MAC: FieldName = "src_mac";

pub const DST_MAC: FieldName = "dst_mac";

pub const ETHERTYPE: FieldName = "ethertype";

/// Smaller values are IEEE 802.3 lengths.
pub const MIN_ETHERTYPE: u16 = 0x0600;

pub open spec fn fields(b: Seq<u8>, ctx: Context) -> Fields {
    let f = Map::<Seq<char>, ValueView>::empty();
    let f = if ctx.keys() {
        f
            .insert(SRC_MAC@, ValueView::Bytes(b.subrange(6, 12)))
            .insert(DST_MAC@, ValueView::Bytes(b.subrange(0, 6)))
    } else {
        f
    };
    if ctx.structural() {
        f.insert(ETHERTYPE@, ValueView::U64(bytes::be16(b, 12) as u64))
    } else {
        f
    }
}

/// The header at the start of `b`.
pub open spec fn message(b: Seq<u8>, ctx: Context) -> Result<Parsed, ParseError> {
    if b.len() < 6 {
        Err(bytes::short(b, 0, 6))
    } else if b.len() < 12 {
        Err(bytes::short(b, 6, 6))
    } else if b.len() < 14 {
        Err(bytes::short(b, 12, 2))
    } else {
        Ok(
            Parsed {
                header_len: 14,
                fields: fields(b, ctx),
                hint: if bytes::be16(b, 12) >= MIN_ETHERTYPE {
                    Hint::Route(RouteId::EtherType(bytes::be16(b, 12)))
                } else {
                    Hint::Route(RouteId::Custom { space: "eth_llc_frame", id: 0 })
                },
            },
        )
    }
}

pub struct Ethernet;

impl LayerPlugin for Ethernet {
    open spec fn spec_parse(&self, bytes: Seq<u8>, ctx: Context) -> Result<Parsed, ParseError> {
        message(bytes, ctx)
    }

    open spec fn spec_name(&self) -> Seq<char> {
        "ethernet"@
    }

    open spec fn spec_claims(&self) -> Seq<RouteId> {
        seq![RouteId::LinkType(1)]
    }

    open spec fn spec_identity(&self) -> Option<Identity> {
        identity::conversation_of(
            seq![KeyField { a: SRC_MAC, b: Some(DST_MAC) }],
            seq![RollupSpec { field: ETHERTYPE, kind: RollupKind::Accumulate }],
        )
    }

    open spec fn spec_condense(&self) -> Option<CondenseSpec> {
        None
    }

    open spec fn spec_has_probe(&self) -> bool {
        false
    }

    open spec fn spec_probe(&self, bytes: Seq<u8>, ctx: Context) -> Option<u8> {
        None
    }

    open spec fn spec_predecessors(&self) -> Seq<ProtocolName> {
        Seq::empty()
    }

    fn name(&self) -> (r: ProtocolName) {
        "ethernet"
    }

    fn parse(&self, bytes: &[u8], ctx: &ParseCtx) -> (r: Result<ParsedLayer, ParseError>) {
        let mut r = ByteReader::new(bytes);
        let dst = r.take(6)?;
        let src = r.take(6)?;
        let ethertype: u16 = r.u16_be()?;

        let mut fields = FieldMap::new();
        if ctx.keys() {
            fields.insert(SRC_MAC, Value::from(src));
            fields.insert(DST_MAC, Value::from(dst));
        }
        if ctx.structural() {
            fields.insert(ETHERTYPE, Value::U64(ethertype as u64));
        }
        let hint = if ethertype >= MIN_ETHERTYPE {
            Hint::Route(RouteId::EtherType(ethertype))
        } else {
            Hint::Route(RouteId::Custom { space: "eth_llc_frame", id: 0 })
        };
        Ok(ParsedLayer { header_len: 14, fields, hint })
    }

    fn claims(&self) -> (r: &'static [RouteId]) {
        &[RouteId::LinkType(1)]
    }

    fn stream_identity(&self) -> (r: Option<StreamIdentity>) {
        identity::conversation(
            &[KeyField { a: SRC_MAC, b: Some(DST_MAC) }],
            &[RollupSpec { field: ETHERTYPE, kind: RollupKind::Accumulate }],
        )
    }

    fn condense(&self) -> (r: Option<CondenseSpec>) {
        None
    }

    fn has_probe(&self) -> (r: bool) {
        false
    }

    fn probe(&self, bytes: &[u8], ctx: &ParseCtx) -> (r: Option<Confidence>) {
        None
    }

    fn expected_predecessors(&self) -> (r: &'static [ProtocolName]) {
        &[]
    }
}

} // verus!

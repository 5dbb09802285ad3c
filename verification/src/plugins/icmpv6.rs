//! ICMPv6 (RFC 4443): errors and echoes end here, as in ICMPv4. Neighbour discovery
//! (RFC 4861) and multicast listener discovery (RFC 2710, RFC 3810) are ICMPv6
//! message types that are protocols of their own; they are routed on by type.
use vstd::prelude::*;

use crate::bytes::{self, ByteReader, ParseError};
use crate::identity::{CondenseSpec, Identity, StreamIdentity};
use crate::layer::{Confidence, Context, Hint, LayerPlugin, ParseCtx, Parsed, ParsedLayer, RouteId};
use crate::value::{FieldMap, FieldName, Fields, ProtocolName, Value, ValueView};

verus! {

pub const TYPE: FieldName = "type";

pub const CODE: FieldName = "code";

pub const REST_OF_HEADER: FieldName = "rest_of_header";

/// The name space of message types that are routed on.
pub const ICMPV6_TYPE_SPACE: &'static str = "icmpv6_type";

pub const MLD_QUERY: u8 = 130;

pub const MLD_V1_REPORT: u8 = 131;

pub const MLD_DONE: u8 = 132;

pub const ROUTER_SOLICITATION: u8 = 133;

pub const ROUTER_ADVERTISEMENT: u8 = 134;

pub const NEIGHBOR_SOLICITATION: u8 = 135;

pub const NEIGHBOR_ADVERTISEMENT: u8 = 136;

pub const REDIRECT: u8 = 137;

pub const MLD_V2_REPORT: u8 = 143;

/// Message types with a protocol of their own.
pub open spec fn routed(kind: u8) -> bool {
    ||| kind == MLD_QUERY
    ||| kind == MLD_V1_REPORT
    ||| kind == MLD_DONE
    ||| kind == MLD_V2_REPORT
    ||| kind == ROUTER_SOLICITATION
    ||| kind == ROUTER_ADVERTISEMENT
    ||| kind == NEIGHBOR_SOLICITATION
    ||| kind == NEIGHBOR_ADVERTISEMENT
    ||| kind == REDIRECT
}

pub open spec fn next(kind: u8) -> Hint {
    if routed(kind) {
        Hint::Route(RouteId::Custom { space: ICMPV6_TYPE_SPACE, id: kind as u64 })
    } else {
        Hint::Terminal
    }
}

pub open spec fn fields(b: Seq<u8>, ctx: Context) -> Fields {
    let f = Map::<Seq<char>, ValueView>::empty();
    let f = if ctx.structural() {
        f
            .insert(TYPE@, ValueView::U64(b[0] as u64))
            .insert(CODE@, ValueView::U64(b[1] as u64))
    } else {
        f
    };
    if ctx.full() {
        f.insert(REST_OF_HEADER@, ValueView::Bytes(b.subrange(4, 8)))
    } else {
        f
    }
}

/// The message at the start of `b`.
pub open spec fn message(b: Seq<u8>, ctx: Context) -> Result<Parsed, ParseError> {
    if b.len() < 2 {
        Err(bytes::short(b, b.len() as int, 1))
    } else if b.len() < 4 {
        Err(bytes::short(b, 2, 2))
    } else if b.len() < 8 {
        Err(bytes::short(b, 4, 4))
    } else {
        Ok(Parsed { header_len: 8, fields: fields(b, ctx), hint: next(b[0]) })
    }
}

pub struct Icmpv6;

impl LayerPlugin for Icmpv6 {
    open spec fn spec_parse(&self, bytes: Seq<u8>, ctx: Context) -> Result<Parsed, ParseError> {
        message(bytes, ctx)
    }

    open spec fn spec_name(&self) -> Seq<char> {
        "icmpv6"@
    }

    open spec fn spec_claims(&self) -> Seq<RouteId> {
        seq![RouteId::IpProtocol(58)]
    }

    open spec fn spec_identity(&self) -> Option<Identity> {
        None
    }

    open spec fn spec_condense(&self) -> Option<CondenseSpec> {
        None
    }

    open spec fn spec_has_probe(&self) -> bool {
        false
    }

    open spec fn spec_probe(&self, bytes: Seq<u8>, ctx: Context) -> Option<u8> {
        None
    }

    open spec fn spec_predecessors(&self) -> Seq<ProtocolName> {
        Seq::empty()
    }

    fn name(&self) -> (r: ProtocolName) {
        "icmpv6"
    }

    fn parse(&self, bytes: &[u8], ctx: &ParseCtx) -> (r: Result<ParsedLayer, ParseError>) {
        let mut r = ByteReader::new(bytes);
        let kind: u8 = r.u8()?;
        let code: u8 = r.u8()?;
        let _checksum: u16 = r.u16_be()?;
        let rest = r.take(4)?;

        let mut fields = FieldMap::new();
        if ctx.structural() {
            fields.insert(TYPE, Value::U64(kind as u64));
            fields.insert(CODE, Value::U64(code as u64));
        }
        if ctx.full() {
            fields.insert(REST_OF_HEADER, Value::from(rest));
        }
        let hint = match kind {
            ROUTER_SOLICITATION | ROUTER_ADVERTISEMENT | NEIGHBOR_SOLICITATION | NEIGHBOR_ADVERTISEMENT
            | REDIRECT | MLD_QUERY | MLD_V1_REPORT | MLD_DONE | MLD_V2_REPORT => Hint::Route(
                RouteId::Custom { space: ICMPV6_TYPE_SPACE, id: kind as u64 },
            ),
            _ => Hint::Terminal,
        };
        Ok(ParsedLayer { header_len: 8, fields, hint })
    }

    fn claims(&self) -> (r: &'static [RouteId]) {
        &[RouteId::IpProtocol(58)]
    }

    fn stream_identity(&self) -> (r: Option<StreamIdentity>) {
        None
    }

    fn condense(&self) -> (r: Option<CondenseSpec>) {
        None
    }

    fn has_probe(&self) -> (r: bool) {
        false
    }

    fn probe(&self, bytes: &[u8], ctx: &ParseCtx) -> (r: Option<Confidence>) {
        None
    }

    fn expected_predecessors(&self) -> (r: &'static [ProtocolName]) {
        &[]
    }
}

} // verus!

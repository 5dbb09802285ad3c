//! LACP (IEEE 802.3, slow protocols): a fixed 110-byte unit of four TLVs in a fixed
//! order. One stream per pair of aggregating systems.
use vstd::prelude::*;

use crate::bytes::{self, ByteReader, ParseError};
use crate::identity::{
    self, CondenseSpec, Identity, KeyField, RollupKind, RollupSpec, StreamIdentity,
};
use crate::layer::{Confidence, Context, Hint, LayerPlugin, ParseCtx, Parsed, ParsedLayer, RouteId};
use crate::value::{FieldMap, FieldName, Fields, ProtocolName, Value, ValueView};

verus! {

pub const ACTOR_SYSTEM: FieldName = "actor_system";

pub const PARTNER_SYSTEM: FieldName = "partner_system";

pub const ACTOR_KEY: FieldName = "actor_key";

pub const ACTOR_PORT: FieldName = "actor_port";

pub const ACTOR_STATE: FieldName = "actor_state";

pub const PARTNER_KEY: FieldName = "partner_key";

pub const PARTNER_PORT: FieldName = "partner_port";

pub const PARTNER_STATE: FieldName = "partner_state";

/// The slow protocol that LACP is; another is the marker protocol.
pub const LACP_SUBTYPE: u8 = 0x01;

pub const TLV_TERMINATOR: u8 = 0x00;

pub const TLV_ACTOR: u8 = 0x01;

pub const TLV_PARTNER: u8 = 0x02;

pub const TLV_COLLECTOR: u8 = 0x03;

/// The length of an actor or partner TLV, its type and length bytes among it.
pub const ENDPOINT_TLV_LEN: u8 = 0x14;

pub const COLLECTOR_TLV_LEN: u8 = 0x10;

/// Reserved bytes that fill the unit up.
pub const TRAILER_LEN: usize = 50;

/// Why the endpoint TLV at `p` is declined, if it is: type, length, system
/// priority, system, key, port priority, port, state, three reserved bytes.
pub open spec fn endpoint_error(b: Seq<u8>, p: int, kind: u8) -> Option<ParseError> {
    if b.len() < p + 1 {
        Some(bytes::short(b, p, 1))
    } else if b[p] != kind {
        Some(ParseError::Malformed("LACP: Actor/Partner TLV out of order"))
    } else if b.len() < p + 2 {
        Some(bytes::short(b, p + 1, 1))
    } else if b[p + 1] != ENDPOINT_TLV_LEN {
        Some(ParseError::Malformed("LACP: unexpected Actor/Partner TLV length"))
    } else if b.len() < p + 4 {
        Some(bytes::short(b, p + 2, 2))
    } else if b.len() < p + 10 {
        Some(bytes::short(b, p + 4, 6))
    } else if b.len() < p + 12 {
        Some(bytes::short(b, p + 10, 2))
    } else if b.len() < p + 14 {
        Some(bytes::short(b, p + 12, 2))
    } else if b.len() < p + 16 {
        Some(bytes::short(b, p + 14, 2))
    } else if b.len() < p + 17 {
        Some(bytes::short(b, p + 16, 1))
    } else if b.len() < p + 20 {
        Some(bytes::short(b, p + 17, 3))
    } else {
        None
    }
}

/// Why what follows the endpoint TLVs is declined, if it is.
pub open spec fn tail_error(b: Seq<u8>) -> Option<ParseError> {
    if b.len() < 43 {
        Some(bytes::short(b, 42, 1))
    } else if b[42] != TLV_COLLECTOR {
        Some(ParseError::Malformed("LACP: Collector TLV out of order"))
    } else if b.len() < 44 {
        Some(bytes::short(b, 43, 1))
    } else if b[43] != COLLECTOR_TLV_LEN {
        Some(ParseError::Malformed("LACP: unexpected Collector TLV length"))
    } else if b.len() < 58 {
        Some(bytes::short(b, 44, 14))
    } else if b.len() < 60 {
        Some(bytes::short(b, b.len() as int, 1))
    } else if b[58] != TLV_TERMINATOR || b[59] != 0 {
        Some(ParseError::Malformed("LACP: missing Terminator TLV"))
    } else if b.len() < 110 {
        Some(bytes::short(b, 60, 50))
    } else {
        None
    }
}

pub open spec fn fields(b: Seq<u8>, ctx: Context) -> Fields {
    let f = Map::<Seq<char>, ValueView>::empty();
    let f = if ctx.keys() {
        f
            .insert(ACTOR_SYSTEM@, ValueView::Bytes(b.subrange(6, 12)))
            .insert(PARTNER_SYSTEM@, ValueView::Bytes(b.subrange(26, 32)))
    } else {
        f
    };
    if ctx.structural() {
        f
            .insert(ACTOR_KEY@, ValueView::U64(bytes::be16(b, 12) as u64))
            .insert(ACTOR_PORT@, ValueView::U64(bytes::be16(b, 16) as u64))
            .insert(ACTOR_STATE@, ValueView::U64(b[18] as u64))
            .insert(PARTNER_KEY@, ValueView::U64(bytes::be16(b, 32) as u64))
            .insert(PARTNER_PORT@, ValueView::U64(bytes::be16(b, 36) as u64))
            .insert(PARTNER_STATE@, ValueView::U64(b[38] as u64))
    } else {
        f
    }
}

/// The unit at the start of `b`.
pub open spec fn message(b: Seq<u8>, ctx: Context) -> Result<Parsed, ParseError> {
    if b.len() < 1 {
        Err(bytes::short(b, 0, 1))
    } else if b[0] != LACP_SUBTYPE {
        Err(ParseError::Malformed("LACP: not the LACP Slow Protocols subtype"))
    } else if b.len() < 2 {
        Err(bytes::short(b, 1, 1))
    } else if endpoint_error(b, 2, TLV_ACTOR) is Some {
        Err(endpoint_error(b, 2, TLV_ACTOR)->0)
    } else if endpoint_error(b, 22, TLV_PARTNER) is Some {
        Err(endpoint_error(b, 22, TLV_PARTNER)->0)
    } else if tail_error(b) is Some {
        Err(tail_error(b)->0)
    } else {
        Ok(Parsed { header_len: 110, fields: fields(b, ctx), hint: Hint::Terminal })
    }
}

struct Endpoint<'a> {
    system: &'a [u8],
    key: u16,
    port: u16,
    state: u8,
}

fn read_endpoint_tlv<'a>(r: &mut ByteReader<'a>, kind: u8) -> (res: Result<
    Endpoint<'a>,
    ParseError,
>)
    requires
        old(r).wf(),
    ensures
        final(r).wf(),
        final(r).data == old(r).data,
        match endpoint_error(old(r).data@, old(r).pos as int, kind) {
            Some(e) => res is Err && res->Err_0 == e,
            None => res is Ok && {
                let (b, p) = (old(r).data@, old(r).pos as int);
                &&& final(r).pos == p + 20
                &&& res->Ok_0.system@ == b.subrange(p + 4, p + 10)
                &&& res->Ok_0.key == bytes::be16(b, p + 10)
                &&& res->Ok_0.port == bytes::be16(b, p + 14)
                &&& res->Ok_0.state == b[p + 16]
            },
        },
{
    let tlv_type: u8 = r.u8()?;
    if tlv_type != kind {
        return Err(ParseError::Malformed("LACP: Actor/Partner TLV out of order"));
    }
    let tlv_len: u8 = r.u8()?;
    if tlv_len != ENDPOINT_TLV_LEN {
        return Err(ParseError::Malformed("LACP: unexpected Actor/Partner TLV length"));
    }
    let _system_priority: u16 = r.u16_be()?;
    let system = r.take(6)?;
    let key: u16 = r.u16_be()?;
    let _port_priority: u16 = r.u16_be()?;
    let port: u16 = r.u16_be()?;
    let state: u8 = r.u8()?;
    let _reserved = r.take(3)?;
    Ok(Endpoint { system, key, port, state })
}

fn read_tail(r: &mut ByteReader) -> (res: Result<(), ParseError>)
    requires
        old(r).wf(),
        old(r).pos == 42,
    ensures
        final(r).wf(),
        final(r).data == old(r).data,
        match tail_error(old(r).data@) {
            Some(e) => res is Err && res->Err_0 == e,
            None => res is Ok && final(r).pos == 110,
        },
{
    let tlv_type: u8 = r.u8()?;
    if tlv_type != TLV_COLLECTOR {
        return Err(ParseError::Malformed("LACP: Collector TLV out of order"));
    }
    let tlv_len: u8 = r.u8()?;
    if tlv_len != COLLECTOR_TLV_LEN {
        return Err(ParseError::Malformed("LACP: unexpected Collector TLV length"));
    }
    let _max_delay_and_reserved = r.take(COLLECTOR_TLV_LEN as usize - 2)?;
    let terminator_type: u8 = r.u8()?;
    let terminator_len: u8 = r.u8()?;
    if terminator_type != TLV_TERMINATOR || terminator_len != 0 {
        return Err(ParseError::Malformed("LACP: missing Terminator TLV"));
    }
    let _reserved = r.take(TRAILER_LEN)?;
    Ok(())
}

pub struct Lacp;

impl LayerPlugin for Lacp {
    open spec fn spec_parse(&self, bytes: Seq<u8>, ctx: Context) -> Result<Parsed, ParseError> {
        message(bytes, ctx)
    }

    open spec fn spec_name(&self) -> Seq<char> {
        "lacp"@
    }

    open spec fn spec_claims(&self) -> Seq<RouteId> {
        seq![RouteId::EtherType(0x8809)]
    }

    open spec fn spec_identity(&self) -> Option<Identity> {
        identity::conversation_of(
            seq![KeyField { a: ACTOR_SYSTEM, b: Some(PARTNER_SYSTEM) }],
            seq![RollupSpec { field: ACTOR_STATE, kind: RollupKind::Accumulate }],
        )
    }

    open spec fn spec_condense(&self) -> Option<CondenseSpec> {
        None
    }

    open spec fn spec_has_probe(&self) -> bool {
        false
    }

    open spec fn spec_probe(&self, bytes: Seq<u8>, ctx: Context) -> Option<u8> {
        None
    }

    open spec fn spec_predecessors(&self) -> Seq<ProtocolName> {
        Seq::empty()
    }

    fn name(&self) -> (r: ProtocolName) {
        "lacp"
    }

    fn parse(&self, bytes: &[u8], ctx: &ParseCtx) -> (r: Result<ParsedLayer, ParseError>) {
        let mut r = ByteReader::new(bytes);
        let subtype: u8 = r.u8()?;
        if subtype != LACP_SUBTYPE {
            return Err(ParseError::Malformed("LACP: not the LACP Slow Protocols subtype"));
        }
        let _version: u8 = r.u8()?;
        let actor = read_endpoint_tlv(&mut r, TLV_ACTOR)?;
        let partner = read_endpoint_tlv(&mut r, TLV_PARTNER)?;
        read_tail(&mut r)?;

        let mut fields = FieldMap::new();
        if ctx.keys() {
            fields.insert(ACTOR_SYSTEM, Value::from(actor.system));
            fields.insert(PARTNER_SYSTEM, Value::from(partner.system));
        }
        if ctx.structural() {
            fields.insert(ACTOR_KEY, Value::U64(actor.key as u64));
            fields.insert(ACTOR_PORT, Value::U64(actor.port as u64));
            fields.insert(ACTOR_STATE, Value::U64(actor.state as u64));
            fields.insert(PARTNER_KEY, Value::U64(partner.key as u64));
            fields.insert(PARTNER_PORT, Value::U64(partner.port as u64));
            fields.insert(PARTNER_STATE, Value::U64(partner.state as u64));
        }
        Ok(ParsedLayer { header_len: r.pos, fields, hint: Hint::Terminal })
    }

    fn claims(&self) -> (r: &'static [RouteId]) {
        &[RouteId::EtherType(0x8809)]
    }

    fn stream_identity(&self) -> (r: Option<StreamIdentity>) {
        identity::conversation(
            &[KeyField { a: ACTOR_SYSTEM, b: Some(PARTNER_SYSTEM) }],
            &[RollupSpec { field: ACTOR_STATE, kind: RollupKind::Accumulate }],
        )
    }

    fn condense(&self) -> (r: Option<CondenseSpec>) {
        None
    }

    fn has_probe(&self) -> (r: bool) {
        false
    }

    fn probe(&self, bytes: &[u8], ctx: &ParseCtx) -> (r: Option<Confidence>) {
        None
    }

    fn expected_predecessors(&self) -> (r: &'static [ProtocolName]) {
        &[]
    }
}

} // verus!

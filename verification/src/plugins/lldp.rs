//! LLDP (IEEE 802.1AB): chassis id, port id and time to live, in this order, then
//! optional TLVs up to the End TLV. A neighbour announcement, not a conversation:
//! it forms no stream.
use vstd::prelude::*;

use crate::bytes::{self, ByteReader, ParseError};
use crate::identity::{CondenseSpec, Identity, StreamIdentity};
use crate::layer::{Confidence, Context, Hint, LayerPlugin, ParseCtx, Parsed, ParsedLayer, RouteId};
use crate::text;
use crate::value::{FieldMap, FieldName, Fields, ProtocolName, Value, ValueView};

verus! {

pub const CHASSIS_ID_SUBTYPE: FieldName = "chassis_id_subtype";

pub const CHASSIS_ID: FieldName = "chassis_id";

pub const PORT_ID_SUBTYPE: FieldName = "port_id_subtype";

pub const PORT_ID: FieldName = "port_id";

pub const TTL: FieldName = "ttl";

pub const SYSTEM_NAME: FieldName = "system_name";

pub const SYSTEM_DESCRIPTION: FieldName = "system_description";

pub const MANAGEMENT_ADDRESS: FieldName = "management_address";

pub const CAPABILITIES: FieldName = "capabilities";

pub const TLV_END: u8 = 0;

pub const TLV_CHASSIS_ID: u8 = 1;

pub const TLV_PORT_ID: u8 = 2;

pub const TLV_TTL: u8 = 3;

pub const TLV_SYSTEM_NAME: u8 = 5;

pub const TLV_SYSTEM_DESCRIPTION: u8 = 6;

pub const TLV_SYSTEM_CAPABILITIES: u8 = 7;

pub const TLV_MANAGEMENT_ADDRESS: u8 = 8;

/// A TLV header holds a 7-bit type and a 9-bit length.
pub open spec fn tlv_type(b: Seq<u8>, p: int) -> u8 {
    (bytes::be16(b, p) >> 9) as u8
}

pub open spec fn tlv_len(b: Seq<u8>, p: int) -> int {
    (bytes::be16(b, p) & 0x01FF) as int
}

pub open spec fn tlv_end(b: Seq<u8>, p: int) -> int {
    p + 2 + tlv_len(b, p)
}

pub open spec fn tlv_value(b: Seq<u8>, p: int) -> Seq<u8> {
    b.subrange(p + 2, tlv_end(b, p))
}

/// Why no complete TLV stands at `p`, if none does.
pub open spec fn tlv_short(b: Seq<u8>, p: int) -> Option<ParseError> {
    if b.len() < p + 2 {
        Some(bytes::short(b, p, 2))
    } else if b.len() < tlv_end(b, p) {
        Some(bytes::short(b, p + 2, tlv_len(b, p)))
    } else {
        None
    }
}

/// What the optional TLVs say; the first of a kind counts.
pub struct Optional {
    pub system_name: Option<Seq<char>>,
    pub system_description: Option<Seq<char>>,
    pub management_address: Option<Seq<u8>>,
    pub capabilities: Option<u16>,
}

pub open spec fn nothing() -> Optional {
    Optional {
        system_name: None,
        system_description: None,
        management_address: None,
        capabilities: None,
    }
}

/// `o` after the TLV `kind` with content `v`. Of the two capability words the
/// second, the enabled capabilities, is kept.
pub open spec fn with_tlv(o: Optional, kind: u8, v: Seq<u8>) -> Optional {
    if kind == TLV_SYSTEM_NAME && o.system_name is None {
        Optional { system_name: Some(text::display_text(v)), ..o }
    } else if kind == TLV_SYSTEM_DESCRIPTION && o.system_description is None {
        Optional { system_description: Some(text::display_text(v)), ..o }
    } else if kind == TLV_SYSTEM_CAPABILITIES && o.capabilities is None && v.len() == 4 {
        Optional { capabilities: Some(bytes::be16(v, 2)), ..o }
    } else if kind == TLV_MANAGEMENT_ADDRESS && o.management_address is None {
        Optional { management_address: Some(v), ..o }
    } else {
        o
    }
}

/// The optional TLVs from `p` on, after `o`, and where the End TLV ends.
pub open spec fn optional(b: Seq<u8>, p: int, o: Optional) -> Result<(Optional, int), ParseError>
    decreases b.len() - p,
{
    if p < 0 {
        Ok((o, p))
    } else {
        match tlv_short(b, p) {
            Some(e) => Err(e),
            None => if tlv_type(b, p) == TLV_END {
                Ok((o, tlv_end(b, p)))
            } else if tlv_end(b, p) <= p {
                Ok((o, p))
            } else {
                optional(b, tlv_end(b, p), with_tlv(o, tlv_type(b, p), tlv_value(b, p)))
            },
        }
    }
}

pub open spec fn fields(
    b: Seq<u8>,
    chassis: Seq<u8>,
    port: Seq<u8>,
    ttl: u16,
    o: Optional,
    ctx: Context,
) -> Fields {
    let f = Map::<Seq<char>, ValueView>::empty();
    let f = if ctx.structural() {
        f.insert(CHASSIS_ID_SUBTYPE@, ValueView::U64(chassis[0] as u64)).insert(
            CHASSIS_ID@,
            ValueView::Bytes(chassis.subrange(1, chassis.len() as int)),
        ).insert(PORT_ID_SUBTYPE@, ValueView::U64(port[0] as u64)).insert(
            PORT_ID@,
            ValueView::Bytes(port.subrange(1, port.len() as int)),
        ).insert(TTL@, ValueView::U64(ttl as u64))
    } else {
        f
    };
    let f = if ctx.full() && o.system_name is Some {
        f.insert(SYSTEM_NAME@, ValueView::Str(o.system_name->0))
    } else {
        f
    };
    let f = if ctx.full() && o.system_description is Some {
        f.insert(SYSTEM_DESCRIPTION@, ValueView::Str(o.system_description->0))
    } else {
        f
    };
    let f = if ctx.full() && o.management_address is Some {
        f.insert(MANAGEMENT_ADDRESS@, ValueView::Bytes(o.management_address->0))
    } else {
        f
    };
    if ctx.full() && o.capabilities is Some {
        f.insert(CAPABILITIES@, ValueView::U64(o.capabilities->0 as u64))
    } else {
        f
    }
}

/// What follows the chassis id, which ends at `p`, and the port id, which ends
/// at `q`.
pub open spec fn tail(b: Seq<u8>, p: int, q: int, ctx: Context) -> Result<Parsed, ParseError> {
    match tlv_short(b, q) {
        Some(e) => Err(e),
        None => if tlv_type(b, q) != TLV_TTL || tlv_len(b, q) != 2 {
            Err(ParseError::Malformed("LLDP: expected 2-byte TTL TLV"))
        } else {
            match optional(b, tlv_end(b, q), nothing()) {
                Err(e) => Err(e),
                Ok((o, end)) => Ok(
                    Parsed {
                        header_len: end,
                        fields: fields(
                            b,
                            tlv_value(b, 0),
                            tlv_value(b, p),
                            bytes::be16(b, q + 2),
                            o,
                            ctx,
                        ),
                        hint: Hint::Terminal,
                    },
                ),
            }
        },
    }
}

/// The announcement at the start of `b`.
pub open spec fn message(b: Seq<u8>, ctx: Context) -> Result<Parsed, ParseError> {
    match tlv_short(b, 0) {
        Some(e) => Err(e),
        None => if tlv_type(b, 0) != TLV_CHASSIS_ID || tlv_len(b, 0) == 0 {
            Err(ParseError::Malformed("LLDP: expected Chassis ID TLV"))
        } else {
            let p = tlv_end(b, 0);
            match tlv_short(b, p) {
                Some(e) => Err(e),
                None => if tlv_type(b, p) != TLV_PORT_ID || tlv_len(b, p) == 0 {
                    Err(ParseError::Malformed("LLDP: expected Port ID TLV"))
                } else {
                    tail(b, p, tlv_end(b, p), ctx)
                },
            }
        },
    }
}

fn read_tlv<'a>(r: &mut ByteReader<'a>) -> (res: Result<(u8, &'a [u8]), ParseError>)
    requires
        old(r).wf(),
    ensures
        final(r).wf(),
        final(r).data == old(r).data,
        match tlv_short(old(r).data@, old(r).pos as int) {
            Some(e) => res is Err && res->Err_0 == e,
            None => res is Ok && res->Ok_0.0 == tlv_type(old(r).data@, old(r).pos as int)
                && res->Ok_0.1@ == tlv_value(old(r).data@, old(r).pos as int)
                && res->Ok_0.1@.len() == tlv_len(old(r).data@, old(r).pos as int) && final(r).pos
                == tlv_end(old(r).data@, old(r).pos as int) && final(r).pos > old(r).pos,
        },
{
    let header: u16 = r.u16_be()?;
    let kind: u8 = (header >> 9) as u8;
    let len: usize = (header & 0x01FF) as usize;
    let v = r.take(len)?;
    Ok((kind, v))
}

struct Found<'a> {
    system_name: Option<String>,
    system_description: Option<String>,
    management_address: Option<&'a [u8]>,
    capabilities: Option<u16>,
}

spec fn same_text(a: Option<String>, b: Option<Seq<char>>) -> bool {
    match (a, b) {
        (Some(a), Some(b)) => a@ == b,
        (None, None) => true,
        _ => false,
    }
}

impl<'a> Found<'a> {
    spec fn is(self, o: Optional) -> bool {
        &&& same_text(self.system_name, o.system_name)
        &&& same_text(self.system_description, o.system_description)
        &&& self.capabilities == o.capabilities
        &&& match (self.management_address, o.management_address) {
            (Some(a), Some(b)) => a@ == b,
            (None, None) => true,
            _ => false,
        }
    }
}

fn read_optional<'a>(r: &mut ByteReader<'a>) -> (res: Result<Found<'a>, ParseError>)
    requires
        old(r).wf(),
    ensures
        final(r).wf(),
        final(r).data == old(r).data,
        match optional(old(r).data@, old(r).pos as int, nothing()) {
            Ok((o, end)) => res is Ok && res->Ok_0.is(o) && final(r).pos == end,
            Err(e) => res is Err && res->Err_0 == e,
        },
{
    let mut found: Found<'a> = Found {
        system_name: None,
        system_description: None,
        management_address: None,
        capabilities: None,
    };
    let ghost mut o = nothing();
    loop
        invariant
            r.wf(),
            r.data == old(r).data,
            found.is(o),
            optional(r.data@, old(r).pos as int, nothing()) == optional(
                r.data@,
                r.pos as int,
                o,
            ),
        decreases r.data@.len() - r.pos,
    {
        let (kind, v) = read_tlv(r)?;
        if kind == TLV_END {
            return Ok(found);
        }
        if kind == TLV_SYSTEM_NAME && found.system_name.is_none() {
            found.system_name = Some(text::decode_display(v));
        } else if kind == TLV_SYSTEM_DESCRIPTION && found.system_description.is_none() {
            found.system_description = Some(text::decode_display(v));
        } else if kind == TLV_SYSTEM_CAPABILITIES && found.capabilities.is_none() && v.len() == 4 {
            found.capabilities = Some(v[2] as u16 * 0x100 + v[3] as u16);
        } else if kind == TLV_MANAGEMENT_ADDRESS && found.management_address.is_none() {
            found.management_address = Some(v);
        }
        proof {
            o = with_tlv(o, kind, v@);
        }
    }
}

pub struct Lldp;

impl LayerPlugin for Lldp {
    open spec fn spec_parse(&self, bytes: Seq<u8>, ctx: Context) -> Result<Parsed, ParseError> {
        message(bytes, ctx)
    }

    open spec fn spec_name(&self) -> Seq<char> {
        "lldp"@
    }

    open spec fn spec_claims(&self) -> Seq<RouteId> {
        seq![RouteId::EtherType(0x88CC)]
    }

    open spec fn spec_identity(&self) -> Option<Identity> {
        None
    }

    open spec fn spec_condense(&self) -> Option<CondenseSpec> {
        None
    }

    open spec fn spec_has_probe(&self) -> bool {
        false
    }

    open spec fn spec_probe(&self, bytes: Seq<u8>, ctx: Context) -> Option<u8> {
        None
    }

    open spec fn spec_predecessors(&self) -> Seq<ProtocolName> {
        Seq::empty()
    }

    fn name(&self) -> (r: ProtocolName) {
        "lldp"
    }

    fn parse(&self, bytes: &[u8], ctx: &ParseCtx) -> (r: Result<ParsedLayer, ParseError>) {
        let mut r = ByteReader::new(bytes);
        let (kind, chassis) = read_tlv(&mut r)?;
        if kind != TLV_CHASSIS_ID || chassis.len() == 0 {
            return Err(ParseError::Malformed("LLDP: expected Chassis ID TLV"));
        }
        let (kind, port) = read_tlv(&mut r)?;
        if kind != TLV_PORT_ID || port.len() == 0 {
            return Err(ParseError::Malformed("LLDP: expected Port ID TLV"));
        }
        let (kind, ttl_bytes) = read_tlv(&mut r)?;
        if kind != TLV_TTL || ttl_bytes.len() != 2 {
            return Err(ParseError::Malformed("LLDP: expected 2-byte TTL TLV"));
        }
        let ttl: u16 = ttl_bytes[0] as u16 * 0x100 + ttl_bytes[1] as u16;
        let found = read_optional(&mut r)?;

        let mut fields = FieldMap::new();
        if ctx.structural() {
            fields.insert(CHASSIS_ID_SUBTYPE, Value::U64(chassis[0] as u64));
            fields.insert(
                CHASSIS_ID,
                Value::from(vstd::slice::slice_subrange(chassis, 1, chassis.len())),
            );
            fields.insert(PORT_ID_SUBTYPE, Value::U64(port[0] as u64));
            fields.insert(PORT_ID, Value::from(vstd::slice::slice_subrange(port, 1, port.len())));
            fields.insert(TTL, Value::U64(ttl as u64));
        }
        if ctx.full() {
            if let Some(v) = found.system_name {
                fields.insert(SYSTEM_NAME, Value::Str(v));
            }
            if let Some(v) = found.system_description {
                fields.insert(SYSTEM_DESCRIPTION, Value::Str(v));
            }
            if let Some(v) = found.management_address {
                fields.insert(MANAGEMENT_ADDRESS, Value::from(v));
            }
            if let Some(v) = found.capabilities {
                fields.insert(CAPABILITIES, Value::U64(v as u64));
            }
        }
        Ok(ParsedLayer { header_len: bytes.len() - r.remaining(), fields, hint: Hint::Terminal })
    }

    fn claims(&self) -> (r: &'static [RouteId]) {
        &[RouteId::EtherType(0x88CC)]
    }

    fn stream_identity(&self) -> (r: Option<StreamIdentity>) {
        None
    }

    fn condense(&self) -> (r: Option<CondenseSpec>) {
        None
    }

    fn has_probe(&self) -> (r: bool) {
        false
    }

    fn probe(&self, bytes: &[u8], ctx: &ParseCtx) -> (r: Option<Confidence>) {
        None
    }

    fn expected_predecessors(&self) -> (r: &'static [ProtocolName]) {
        &[]
    }
}

} // verus!

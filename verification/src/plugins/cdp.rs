//! CDP, Cisco's discovery protocol: a 4-byte header and a run of TLVs that ends where
//! fewer than four bytes are left or where an all-zero TLV header says that padding
//! begins. A neighbour announcement, not a conversation: it forms no stream.
use vstd::prelude::*;

use crate::bytes::{self, ByteReader, ParseError};
use crate::identity::{CondenseSpec, Identity, StreamIdentity};
use crate::layer::{Confidence, Context, Hint, LayerPlugin, ParseCtx, Parsed, ParsedLayer, RouteId};
use crate::text;
use crate::value::{FieldMap, FieldName, Fields, ProtocolName, Value, ValueView};

verus! {

pub const VERSION: FieldName = "version";

pub const TTL: FieldName = "ttl";

pub const CHECKSUM: FieldName = "checksum";

pub const DEVICE_ID: FieldName = "device_id";

pub const PORT_ID: FieldName = "port_id";

pub const PLATFORM: FieldName = "platform";

pub const CAPABILITIES: FieldName = "capabilities";

pub const NATIVE_VLAN: FieldName = "native_vlan";

pub const IP_ADDRESS: FieldName = "ip_address";

pub const TLV_DEVICE_ID: u16 = 0x0001;

pub const TLV_ADDRESS: u16 = 0x0002;

pub const TLV_PORT_ID: u16 = 0x0003;

pub const TLV_CAPABILITIES: u16 = 0x0004;

pub const TLV_PLATFORM: u16 = 0x0006;

pub const TLV_NATIVE_VLAN: u16 = 0x000A;

/// Cisco's organisation number and CDP's protocol number, as SNAP joins them.
pub const SNAP_CDP: u64 = 0x0C_2000;

/// What the TLVs say; a later one replaces an earlier one.
#[verifier::ext_equal]
pub struct Tlvs {
    pub device_id: Option<Seq<char>>,
    pub port_id: Option<Seq<char>>,
    pub platform: Option<Seq<char>>,
    pub capabilities: Option<u32>,
    pub native_vlan: Option<u16>,
    pub ip_address: Option<Seq<u8>>,
}

pub open spec fn no_tlvs() -> Tlvs {
    Tlvs {
        device_id: None,
        port_id: None,
        platform: None,
        capabilities: None,
        native_vlan: None,
        ip_address: None,
    }
}

/// The first entry of an address list: a 4-byte count, then per address the
/// protocol's type, its length and its bytes, the address's length and its
/// bytes.
pub open spec fn first_address(v: Seq<u8>) -> Option<Seq<u8>> {
    let p = 6 + v[5];
    if v.len() < 6 || bytes::be32(v, 0) == 0 || v.len() < p + 2 || v.len() < p + 2 + bytes::be16(
        v,
        p,
    ) {
        None
    } else {
        Some(v.subrange(p + 2, p + 2 + bytes::be16(v, p)))
    }
}

/// `t` after the TLV `kind` with content `v`.
pub open spec fn with_tlv(t: Tlvs, kind: u16, v: Seq<u8>) -> Tlvs {
    if kind == TLV_DEVICE_ID {
        Tlvs { device_id: Some(text::display_text(v)), ..t }
    } else if kind == TLV_PORT_ID {
        Tlvs { port_id: Some(text::display_text(v)), ..t }
    } else if kind == TLV_PLATFORM {
        Tlvs { platform: Some(text::display_text(v)), ..t }
    } else if kind == TLV_CAPABILITIES && v.len() == 4 {
        Tlvs { capabilities: Some(bytes::be32(v, 0)), ..t }
    } else if kind == TLV_NATIVE_VLAN && v.len() == 2 {
        Tlvs { native_vlan: Some(bytes::be16(v, 0)), ..t }
    } else if kind == TLV_ADDRESS && first_address(v) is Some {
        Tlvs { ip_address: first_address(v), ..t }
    } else {
        t
    }
}

/// The TLVs from `p` on, after `t`, and where they end.
pub open spec fn tlvs(b: Seq<u8>, p: int, t: Tlvs) -> Result<(Tlvs, int), ParseError>
    decreases b.len() - p,
{
    let len = bytes::be16(b, p + 2);
    if p < 0 || b.len() < p + 4 {
        Ok((t, p))
    } else if bytes::be16(b, p) == 0 && len == 0 {
        Ok((t, p))
    } else if len < 4 {
        Err(ParseError::Malformed("CDP: TLV length shorter than its own header"))
    } else if b.len() < p + len {
        Err(bytes::short(b, p + 4, len - 4))
    } else {
        tlvs(b, p + len, with_tlv(t, bytes::be16(b, p), b.subrange(p + 4, p + len)))
    }
}

pub open spec fn fields(b: Seq<u8>, t: Tlvs, ctx: Context) -> Fields {
    let f = Map::<Seq<char>, ValueView>::empty();
    let f = if ctx.structural() {
        f.insert(VERSION@, ValueView::U64(b[0] as u64)).insert(
            TTL@,
            ValueView::U64(b[1] as u64),
        ).insert(CHECKSUM@, ValueView::U64(bytes::be16(b, 2) as u64))
    } else {
        f
    };
    if ctx.full() {
        full_fields(f, t)
    } else {
        f
    }
}

/// `f` with what the TLVs say.
pub open spec fn full_fields(f: Fields, t: Tlvs) -> Fields {
    let f = if t.device_id is Some {
        f.insert(DEVICE_ID@, ValueView::Str(t.device_id->0))
    } else {
        f
    };
    let f = if t.port_id is Some {
        f.insert(PORT_ID@, ValueView::Str(t.port_id->0))
    } else {
        f
    };
    let f = if t.platform is Some {
        f.insert(PLATFORM@, ValueView::Str(t.platform->0))
    } else {
        f
    };
    let f = if t.capabilities is Some {
        f.insert(CAPABILITIES@, ValueView::U64(t.capabilities->0 as u64))
    } else {
        f
    };
    let f = if t.native_vlan is Some {
        f.insert(NATIVE_VLAN@, ValueView::U64(t.native_vlan->0 as u64))
    } else {
        f
    };
    if t.ip_address is Some {
        f.insert(IP_ADDRESS@, ValueView::Bytes(t.ip_address->0))
    } else {
        f
    }
}

/// The announcement at the start of `b`. One without a device id is only a cut
/// off one.
pub open spec fn message(b: Seq<u8>, ctx: Context) -> Result<Parsed, ParseError> {
    if b.len() < 2 {
        Err(bytes::short(b, b.len() as int, 1))
    } else if b.len() < 4 {
        Err(bytes::short(b, 2, 2))
    } else {
        match tlvs(b, 4, no_tlvs()) {
            Err(e) => Err(e),
            Ok((t, end)) => if t.device_id is None {
                Err(ParseError::Malformed("CDP: missing Device ID TLV"))
            } else {
                Ok(Parsed { header_len: end, fields: fields(b, t, ctx), hint: Hint::Terminal })
            },
        }
    }
}

fn read_first_address<'a>(v: &'a [u8]) -> (r: Option<&'a [u8]>)
    ensures
        match first_address(v@) {
            Some(a) => r is Some && r->0@ == a,
            None => r is None,
        },
{
    if v.len() < 6 {
        return None;
    }
    if v[0] == 0 && v[1] == 0 && v[2] == 0 && v[3] == 0 {
        return None;
    }
    let p: usize = 6 + v[5] as usize;
    if v.len() < p + 2 {
        return None;
    }
    let len: usize = v[p] as usize * 0x100 + v[p + 1] as usize;
    if v.len() < p + 2 + len {
        return None;
    }
    Some(vstd::slice::slice_subrange(v, p + 2, p + 2 + len))
}

struct Found<'a> {
    device_id: Option<String>,
    port_id: Option<String>,
    platform: Option<String>,
    capabilities: Option<u32>,
    native_vlan: Option<u16>,
    ip_address: Option<&'a [u8]>,
}

spec fn same_text(a: Option<String>, b: Option<Seq<char>>) -> bool {
    match (a, b) {
        (Some(a), Some(b)) => a@ == b,
        (None, None) => true,
        _ => false,
    }
}

impl<'a> Found<'a> {
    spec fn is(self, t: Tlvs) -> bool {
        &&& same_text(self.device_id, t.device_id)
        &&& same_text(self.port_id, t.port_id)
        &&& same_text(self.platform, t.platform)
        &&& self.capabilities == t.capabilities
        &&& self.native_vlan == t.native_vlan
        &&& match (self.ip_address, t.ip_address) {
            (Some(a), Some(b)) => a@ == b,
            (None, None) => true,
            _ => false,
        }
    }

    fn record(&mut self, kind: u16, v: &'a [u8], Ghost(t): Ghost<Tlvs>)
        requires
            old(self).is(t),
        ensures
            final(self).is(with_tlv(t, kind, v@)),
    {
        if kind == TLV_DEVICE_ID {
            self.device_id = Some(text::decode_display(v));
        } else if kind == TLV_PORT_ID {
            self.port_id = Some(text::decode_display(v));
        } else if kind == TLV_PLATFORM {
            self.platform = Some(text::decode_display(v));
        } else if kind == TLV_CAPABILITIES && v.len() == 4 {
            self.capabilities = Some(
                v[0] as u32 * 0x100_0000 + v[1] as u32 * 0x1_0000 + v[2] as u32 * 0x100
                    + v[3] as u32,
            );
        } else if kind == TLV_NATIVE_VLAN && v.len() == 2 {
            self.native_vlan = Some(v[0] as u16 * 0x100 + v[1] as u16);
        } else if kind == TLV_ADDRESS {
            if let Some(a) = read_first_address(v) {
                self.ip_address = Some(a);
            }
        }
    }

    fn insert_full_fields(self, fields: &mut FieldMap, Ghost(t): Ghost<Tlvs>)
        requires
            self.is(t),
        ensures
            final(fields)@ == full_fields(old(fields)@, t),
    {
        if let Some(v) = self.device_id {
            fields.insert(DEVICE_ID, Value::Str(v));
        }
        if let Some(v) = self.port_id {
            fields.insert(PORT_ID, Value::Str(v));
        }
        if let Some(v) = self.platform {
            fields.insert(PLATFORM, Value::Str(v));
        }
        if let Some(v) = self.capabilities {
            fields.insert(CAPABILITIES, Value::U64(v as u64));
        }
        if let Some(v) = self.native_vlan {
            fields.insert(NATIVE_VLAN, Value::U64(v as u64));
        }
        if let Some(v) = self.ip_address {
            fields.insert(IP_ADDRESS, Value::from(v));
        }
    }
}

fn read_tlvs<'a>(r: &mut ByteReader<'a>) -> (res: Result<(Found<'a>, usize), ParseError>)
    requires
        old(r).wf(),
    ensures
        final(r).wf(),
        final(r).data == old(r).data,
        match tlvs(old(r).data@, old(r).pos as int, no_tlvs()) {
            Ok((t, end)) => res is Ok && res->Ok_0.0.is(t) && res->Ok_0.1 == end,
            Err(e) => res is Err && res->Err_0 == e,
        },
{
    let mut found: Found<'a> = Found {
        device_id: None,
        port_id: None,
        platform: None,
        capabilities: None,
        native_vlan: None,
        ip_address: None,
    };
    let ghost mut t = no_tlvs();
    while r.remaining() >= 4
        invariant
            r.wf(),
            r.data == old(r).data,
            found.is(t),
            tlvs(r.data@, old(r).pos as int, no_tlvs()) == tlvs(r.data@, r.pos as int, t),
        decreases r.data@.len() - r.pos,
    {
        let at: usize = r.pos;
        let kind: u16 = r.u16_be()?;
        let len: u16 = r.u16_be()?;
        if kind == 0 && len == 0 {
            return Ok((found, at));
        }
        if len < 4 {
            return Err(ParseError::Malformed("CDP: TLV length shorter than its own header"));
        }
        let v = r.take(len as usize - 4)?;
        found.record(kind, v, Ghost(t));
        proof {
            t = with_tlv(t, kind, v@);
        }
    }
    Ok((found, r.pos))
}

pub struct Cdp;

impl LayerPlugin for Cdp {
    open spec fn spec_parse(&self, bytes: Seq<u8>, ctx: Context) -> Result<Parsed, ParseError> {
        message(bytes, ctx)
    }

    open spec fn spec_name(&self) -> Seq<char> {
        "cdp"@
    }

    open spec fn spec_claims(&self) -> Seq<RouteId> {
        seq![RouteId::Custom { space: "snap_pid", id: SNAP_CDP }]
    }

    open spec fn spec_identity(&self) -> Option<Identity> {
        None
    }

    open spec fn spec_condense(&self) -> Option<CondenseSpec> {
        None
    }

    open spec fn spec_has_probe(&self) -> bool {
        false
    }

    open spec fn spec_probe(&self, bytes: Seq<u8>, ctx: Context) -> Option<u8> {
        None
    }

    open spec fn spec_predecessors(&self) -> Seq<ProtocolName> {
        Seq::empty()
    }

    fn name(&self) -> (r: ProtocolName) {
        "cdp"
    }

    fn parse(&self, bytes: &[u8], ctx: &ParseCtx) -> (r: Result<ParsedLayer, ParseError>) {
        let mut r = ByteReader::new(bytes);
        let version: u8 = r.u8()?;
        let ttl: u8 = r.u8()?;
        let checksum: u16 = r.u16_be()?;
        let (found, header_len) = read_tlvs(&mut r)?;
        if found.device_id.is_none() {
            return Err(ParseError::Malformed("CDP: missing Device ID TLV"));
        }
        let mut fields = FieldMap::new();
        if ctx.structural() {
            fields.insert(VERSION, Value::U64(version as u64));
            fields.insert(TTL, Value::U64(ttl as u64));
            fields.insert(CHECKSUM, Value::U64(checksum as u64));
        }
        if ctx.full() {
            found.insert_full_fields(&mut fields, Ghost(tlvs(bytes@, 4, no_tlvs())->Ok_0.0));
        }
        Ok(ParsedLayer { header_len, fields, hint: Hint::Terminal })
    }

    fn claims(&self) -> (r: &'static [RouteId]) {
        &[RouteId::Custom { space: "snap_pid", id: SNAP_CDP }]
    }

    fn stream_identity(&self) -> (r: Option<StreamIdentity>) {
        None
    }

    fn condense(&self) -> (r: Option<CondenseSpec>) {
        None
    }

    fn has_probe(&self) -> (r: bool) {
        false
    }

    fn probe(&self, bytes: &[u8], ctx: &ParseCtx) -> (r: Option<Confidence>) {
        None
    }

    fn expected_predecessors(&self) -> (r: &'static [ProtocolName]) {
        &[]
    }
}

} // verus!

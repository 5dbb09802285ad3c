//! IEEE 802.2 LLC and its SNAP extension (RFC 1042): what an 802.3 frame with a
//! length in place of an EtherType carries. The access point, or the SNAP protocol
//! number, names what follows. LLC is framing, not a conversation: it forms no
//! stream.
use vstd::prelude::*;

use crate::bytes::{self, ByteReader, ParseError};
use crate::identity::{CondenseSpec, Identity, StreamIdentity};
use crate::layer::{Confidence, Context, Hint, LayerPlugin, ParseCtx, Parsed, ParsedLayer, RouteId};
use crate::value::{FieldMap, FieldName, Fields, ProtocolName, Value, ValueView};

verus! {

pub const DSAP: FieldName = "dsap";

pub const SSAP: FieldName = "ssap";

pub const CONTROL: FieldName = "control";

pub const OUI: FieldName = "oui";

pub const PID: FieldName = "pid";

/// The access point that SNAP is carried on.
pub const SNAP_SAP: u8 = 0xAA;

pub const STP_SAP: u8 = 0x42;

pub const IPX_SAP: u8 = 0xE0;

pub const NETBIOS_SAP: u8 = 0xF0;

/// An unnumbered control field is one byte long, any other two.
pub open spec fn control_len(b: Seq<u8>) -> int {
    if b[2] & 0x03 == 0x03 {
        1
    } else {
        2
    }
}

pub open spec fn control(b: Seq<u8>) -> u64 {
    if control_len(b) == 1 {
        b[2] as u64
    } else {
        bytes::be16(b, 2) as u64
    }
}

pub open spec fn is_snap(b: Seq<u8>) -> bool {
    b[0] == SNAP_SAP && b[1] == SNAP_SAP
}

/// Where the SNAP organisation number stands, if it is there.
pub open spec fn snap_at(b: Seq<u8>) -> int {
    2 + control_len(b)
}

pub open spec fn oui(b: Seq<u8>) -> u32 {
    bytes::be24(b, snap_at(b))
}

pub open spec fn pid(b: Seq<u8>) -> u16 {
    bytes::be16(b, snap_at(b) + 3)
}

/// Organisation zero means that the protocol number is an EtherType.
pub open spec fn next(b: Seq<u8>) -> Hint {
    if is_snap(b) && oui(b) == 0 {
        Hint::Route(RouteId::EtherType(pid(b)))
    } else if is_snap(b) {
        Hint::Route(
            RouteId::Custom { space: "snap_pid", id: (oui(b) * 0x1_0000 + pid(b)) as u64 },
        )
    } else {
        Hint::Route(RouteId::Custom { space: "llc_dsap", id: b[0] as u64 })
    }
}

pub open spec fn fields(b: Seq<u8>, ctx: Context) -> Fields {
    let f = Map::<Seq<char>, ValueView>::empty();
    let f = if ctx.structural() {
        f
            .insert(DSAP@, ValueView::U64(b[0] as u64))
            .insert(SSAP@, ValueView::U64(b[1] as u64))
            .insert(CONTROL@, ValueView::U64(control(b)))
    } else {
        f
    };
    if ctx.full() && is_snap(b) {
        f
            .insert(OUI@, ValueView::U64(oui(b) as u64))
            .insert(PID@, ValueView::U64(pid(b) as u64))
    } else {
        f
    }
}

/// The header at the start of `b`.
pub open spec fn message(b: Seq<u8>, ctx: Context) -> Result<Parsed, ParseError> {
    if b.len() < 3 {
        Err(bytes::short(b, b.len() as int, 1))
    } else if b.len() < snap_at(b) {
        Err(bytes::short(b, 3, 1))
    } else if is_snap(b) && b.len() < snap_at(b) + 3 {
        Err(bytes::short(b, snap_at(b), 3))
    } else if is_snap(b) && b.len() < snap_at(b) + 5 {
        Err(bytes::short(b, snap_at(b) + 3, 2))
    } else {
        Ok(
            Parsed {
                header_len: if is_snap(b) {
                    snap_at(b) + 5
                } else {
                    snap_at(b)
                },
                fields: fields(b, ctx),
                hint: next(b),
            },
        )
    }
}

/// The access points of protocols that are still met.
pub open spec fn well_known(sap: u8) -> bool {
    sap == STP_SAP || sap == SNAP_SAP || sap == IPX_SAP || sap == NETBIOS_SAP
}

/// 01:80:C2:00:00:00 to 0F: addresses that a bridge never forwards.
pub open spec fn bridge_group(mac: Seq<u8>) -> bool {
    &&& mac.len() == 6
    &&& mac[0] == 0x01 && mac[1] == 0x80 && mac[2] == 0xC2
    &&& mac[3] == 0x00 && mac[4] == 0x00 && mac[5] <= 0x0F
}

/// 01:00:0C:CC:CC:CC and :CD: Cisco's control protocols.
pub open spec fn cisco_multicast(mac: Seq<u8>) -> bool {
    &&& mac.len() == 6
    &&& mac[0] == 0x01 && mac[1] == 0x00 && mac[2] == 0x0C
    &&& mac[3] == 0xCC && mac[4] == 0xCC && (mac[5] == 0xCC || mac[5] == 0xCD)
}

/// Whether the frame is addressed to a reserved multicast group.
pub open spec fn reserved_destination(ctx: Context) -> bool {
    match ctx.field("ethernet"@, "dst_mac"@) {
        Some(ValueView::Bytes(mac)) => bridge_group(mac) || cisco_multicast(mac),
        _ => false,
    }
}

/// A reserved destination is the strongest sign; else both access points have
/// to be well known and the control field complete.
pub open spec fn confidence(b: Seq<u8>, ctx: Context) -> Option<u8> {
    if b.len() < 3 {
        None
    } else if reserved_destination(ctx) {
        Some(90u8)
    } else if well_known(b[0]) && well_known(b[1]) && b.len() >= snap_at(b) {
        Some(55u8)
    } else {
        None
    }
}

fn is_well_known(sap: u8) -> (r: bool)
    ensures
        r == well_known(sap),
{
    sap == STP_SAP || sap == SNAP_SAP || sap == IPX_SAP || sap == NETBIOS_SAP
}

fn is_ieee_bridge_group(mac: &[u8]) -> (r: bool)
    ensures
        r == bridge_group(mac@),
{
    mac.len() == 6 && mac[0] == 0x01 && mac[1] == 0x80 && mac[2] == 0xC2 && mac[3] == 0x00
        && mac[4] == 0x00 && mac[5] <= 0x0F
}

fn is_cisco_multicast(mac: &[u8]) -> (r: bool)
    ensures
        r == cisco_multicast(mac@),
{
    mac.len() == 6 && mac[0] == 0x01 && mac[1] == 0x00 && mac[2] == 0x0C && mac[3] == 0xCC
        && mac[4] == 0xCC && (mac[5] == 0xCC || mac[5] == 0xCD)
}

pub struct Llc;

impl LayerPlugin for Llc {
    open spec fn spec_parse(&self, bytes: Seq<u8>, ctx: Context) -> Result<Parsed, ParseError> {
        message(bytes, ctx)
    }

    open spec fn spec_name(&self) -> Seq<char> {
        "llc"@
    }

    open spec fn spec_claims(&self) -> Seq<RouteId> {
        seq![RouteId::Custom { space: "eth_llc_frame", id: 0 }]
    }

    open spec fn spec_identity(&self) -> Option<Identity> {
        None
    }

    open spec fn spec_condense(&self) -> Option<CondenseSpec> {
        None
    }

    open spec fn spec_has_probe(&self) -> bool {
        true
    }

    open spec fn spec_probe(&self, bytes: Seq<u8>, ctx: Context) -> Option<u8> {
        confidence(bytes, ctx)
    }

    open spec fn spec_predecessors(&self) -> Seq<ProtocolName> {
        seq!["ethernet", "dot11"]
    }

    fn name(&self) -> (r: ProtocolName) {
        "llc"
    }

    fn parse(&self, bytes: &[u8], ctx: &ParseCtx) -> (r: Result<ParsedLayer, ParseError>) {
        let mut r = ByteReader::new(bytes);
        let dsap: u8 = r.u8()?;
        let ssap: u8 = r.u8()?;
        let first: u8 = r.u8()?;
        let mut control: u64 = first as u64;
        if first & 0x03 != 0x03 {
            let second: u8 = r.u8()?;
            control = first as u64 * 0x100 + second as u64;
        }
        let mut snap: Option<(u32, u16)> = None;
        if dsap == SNAP_SAP && ssap == SNAP_SAP {
            let oui: u32 = r.u24_be()?;
            let pid: u16 = r.u16_be()?;
            snap = Some((oui, pid));
        }

        let mut fields = FieldMap::new();
        if ctx.structural() {
            fields.insert(DSAP, Value::U64(dsap as u64));
            fields.insert(SSAP, Value::U64(ssap as u64));
            fields.insert(CONTROL, Value::U64(control));
        }
        if ctx.full() {
            if let Some((oui, pid)) = snap {
                fields.insert(OUI, Value::U64(oui as u64));
                fields.insert(PID, Value::U64(pid as u64));
            }
        }
        let hint = match snap {
            Some((oui, pid)) => if oui == 0 {
                Hint::Route(RouteId::EtherType(pid))
            } else {
                Hint::Route(
                    RouteId::Custom { space: "snap_pid", id: oui as u64 * 0x1_0000 + pid as u64 },
                )
            },
            None => Hint::Route(RouteId::Custom { space: "llc_dsap", id: dsap as u64 }),
        };
        Ok(ParsedLayer { header_len: r.pos, fields, hint })
    }

    fn claims(&self) -> (r: &'static [RouteId]) {
        &[RouteId::Custom { space: "eth_llc_frame", id: 0 }]
    }

    fn stream_identity(&self) -> (r: Option<StreamIdentity>) {
        None
    }

    fn condense(&self) -> (r: Option<CondenseSpec>) {
        None
    }

    fn has_probe(&self) -> (r: bool) {
        true
    }

    fn probe(&self, bytes: &[u8], ctx: &ParseCtx) -> (r: Option<Confidence>) {
        if bytes.len() < 3 {
            return None;
        }
        let control_ok = bytes[2] & 0x03 == 0x03 || bytes.len() >= 4;
        let reserved = match ctx.field("ethernet", "dst_mac") {
            Some(Value::Bytes(mac)) => {
                let mac = mac.as_slice();
                is_ieee_bridge_group(mac) || is_cisco_multicast(mac)
            },
            _ => false,
        };
        if reserved {
            Some(Confidence::new(90))
        } else if is_well_known(bytes[0]) && is_well_known(bytes[1]) && control_ok {
            Some(Confidence::new(55))
        } else {
            None
        }
    }

    fn expected_predecessors(&self) -> (r: &'static [ProtocolName]) {
        &["ethernet", "dot11"]
    }
}

} // verus!

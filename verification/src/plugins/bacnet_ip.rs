//! BACnet/IP (ASHRAE 135 Annex J): a 4-byte BVLC header whose length bounds the
//! whole message, and, for the three functions that carry one, the network header
//! (NPDU) and the leading bytes of the application header (APDU) inside it. What
//! the BVLC length promises beyond those is consumed unread.
//!
//! All of a UDP stream's BACnet traffic, discovery broadcasts and property reads
//! alike, lands in one child stream.
use vstd::prelude::*;

use crate::bytes::{self, ByteReader, ParseError};
use crate::identity::{
    self, CondenseSpec, Identity, KeyField, RollupKind, RollupSpec, StreamIdentity,
};
use crate::layer::{Confidence, Context, Hint, LayerPlugin, ParseCtx, Parsed, ParsedLayer, RouteId};
use crate::value::{FieldMap, FieldName, Fields, ProtocolName, Value, ValueView};

verus! {

pub const APP: FieldName = "app";

pub const BVLC_FUNCTION: FieldName = "bvlc_function";

pub const NPDU_CONTROL: FieldName = "npdu_control";

pub const APDU_TYPE: FieldName = "apdu_type";

pub const SERVICE_CHOICE: FieldName = "service_choice";

/// The BVLC type octet of BACnet/IP.
pub const BVLC_TYPE: u8 = 0x81;

pub const FN_FORWARDED_NPDU: u8 = 0x04;

pub const FN_ORIGINAL_UNICAST_NPDU: u8 = 0x0A;

pub const FN_ORIGINAL_BROADCAST_NPDU: u8 = 0x0B;

/// The BVLC functions are numbered from zero up to here.
pub const LAST_FUNCTION: u8 = 0x0B;

pub const NPDU_VERSION: u8 = 0x01;

pub const CONTROL_NETWORK_LAYER_MSG: u8 = 0x80;

pub const CONTROL_DEST_PRESENT: u8 = 0x20;

pub const CONTROL_SRC_PRESENT: u8 = 0x08;

/// Set in an APDU's first byte when segmentation fields follow.
pub const APDU_SEG_FLAG: u8 = 0x08;

pub const APDU_CONFIRMED_REQUEST: u8 = 0;

pub const APDU_UNCONFIRMED_REQUEST: u8 = 1;

pub const APDU_SIMPLE_ACK: u8 = 2;

pub const APDU_COMPLEX_ACK: u8 = 3;

/// How far the headers reach and what they say.
pub struct Walk {
    pub end: int,
    pub control: Option<u8>,
    pub apdu: Option<u8>,
    pub service: Option<u8>,
}

/// Functions whose payload is an NPDU.
pub open spec fn carries_npdu(function: u8) -> bool {
    function == FN_ORIGINAL_UNICAST_NPDU || function == FN_ORIGINAL_BROADCAST_NPDU || function
        == FN_FORWARDED_NPDU
}

/// The end of an optional network address at `p`: network number, address
/// length, address.
pub open spec fn address_end(b: Seq<u8>, p: int, present: bool) -> Result<int, ParseError> {
    if !present {
        Ok(p)
    } else if b.len() < p + 2 {
        Err(bytes::short(b, p, 2))
    } else if b.len() < p + 3 {
        Err(bytes::short(b, p + 2, 1))
    } else if b.len() < p + 3 + b[p + 2] {
        Err(bytes::short(b, p + 3, b[p + 2] as int))
    } else {
        Ok(p + 3 + b[p + 2])
    }
}

/// How many bytes stand between an APDU's first byte and its service choice,
/// for the PDU types that have one.
pub open spec fn service_offset(first: u8) -> Option<int> {
    let segments: int = if first & APDU_SEG_FLAG != 0 {
        2
    } else {
        0
    };
    if first >> 4 == APDU_CONFIRMED_REQUEST {
        Some(2 + segments)
    } else if first >> 4 == APDU_UNCONFIRMED_REQUEST {
        Some(0)
    } else if first >> 4 == APDU_SIMPLE_ACK {
        Some(1)
    } else if first >> 4 == APDU_COMPLEX_ACK {
        Some(1 + segments)
    } else {
        None
    }
}

/// The APDU at `p`.
pub open spec fn apdu(b: Seq<u8>, p: int, control: u8) -> Result<Walk, ParseError> {
    if b.len() < p + 1 {
        Err(bytes::short(b, p, 1))
    } else {
        match service_offset(b[p]) {
            None => Ok(
                Walk { end: p + 1, control: Some(control), apdu: Some(b[p] >> 4), service: None },
            ),
            Some(n) => if b.len() < p + 2 + n {
                Err(bytes::short(b, b.len() as int, 1))
            } else {
                Ok(
                    Walk {
                        end: p + 2 + n,
                        control: Some(control),
                        apdu: Some(b[p] >> 4),
                        service: Some(b[p + 1 + n]),
                    },
                )
            },
        }
    }
}

/// The network-layer message at `p`: its type and, for a proprietary type, a
/// vendor number. No APDU follows.
pub open spec fn network_message(b: Seq<u8>, p: int, control: u8) -> Result<Walk, ParseError> {
    if b.len() < p + 1 {
        Err(bytes::short(b, p, 1))
    } else if b[p] < 0x80 {
        Ok(Walk { end: p + 1, control: Some(control), apdu: None, service: None })
    } else if b.len() < p + 3 {
        Err(bytes::short(b, p + 1, 2))
    } else {
        Ok(Walk { end: p + 3, control: Some(control), apdu: None, service: None })
    }
}

/// What follows the NPDU's version and control bytes, at `p`.
pub open spec fn npdu_rest(b: Seq<u8>, p: int, control: u8) -> Result<Walk, ParseError> {
    let routed = control & CONTROL_DEST_PRESENT != 0;
    match address_end(b, p, routed) {
        Err(e) => Err(e),
        Ok(q) => match address_end(b, q, control & CONTROL_SRC_PRESENT != 0) {
            Err(e) => Err(e),
            Ok(s) => if routed && b.len() < s + 1 {
                Err(bytes::short(b, s, 1))
            } else {
                let t = if routed {
                    s + 1
                } else {
                    s
                };
                if control & CONTROL_NETWORK_LAYER_MSG != 0 {
                    network_message(b, t, control)
                } else {
                    apdu(b, t, control)
                }
            },
        },
    }
}

/// The NPDU at `p`.
pub open spec fn npdu(b: Seq<u8>, p: int) -> Result<Walk, ParseError> {
    if b.len() < p + 1 {
        Err(bytes::short(b, p, 1))
    } else if b[p] != NPDU_VERSION {
        Err(ParseError::Malformed("NPDU version is not 1"))
    } else if b.len() < p + 2 {
        Err(bytes::short(b, p + 1, 1))
    } else {
        npdu_rest(b, p + 2, b[p + 1])
    }
}

/// What follows the BVLC header: nothing read, or an NPDU, which a forwarded
/// message precedes with the 6-byte address of its original sender.
pub open spec fn walk(b: Seq<u8>) -> Result<Walk, ParseError> {
    if !carries_npdu(b[1]) {
        Ok(Walk { end: 4, control: None, apdu: None, service: None })
    } else if b[1] != FN_FORWARDED_NPDU {
        npdu(b, 4)
    } else if b.len() < 10 {
        Err(bytes::short(b, 4, 6))
    } else {
        npdu(b, 10)
    }
}

pub open spec fn fields(b: Seq<u8>, w: Walk, ctx: Context) -> Fields {
    let f = Map::<Seq<char>, ValueView>::empty();
    let f = if ctx.keys() {
        f.insert(APP@, ValueView::Str("bacnet"@))
    } else {
        f
    };
    let f = if ctx.structural() {
        f.insert(BVLC_FUNCTION@, ValueView::U64(b[1] as u64))
    } else {
        f
    };
    let f = if ctx.structural() && w.control is Some {
        f.insert(NPDU_CONTROL@, ValueView::U64(w.control->0 as u64))
    } else {
        f
    };
    let f = if ctx.full() && w.apdu is Some {
        f.insert(APDU_TYPE@, ValueView::U64(w.apdu->0 as u64))
    } else {
        f
    };
    if ctx.full() && w.service is Some {
        f.insert(SERVICE_CHOICE@, ValueView::U64(w.service->0 as u64))
    } else {
        f
    }
}

/// The message at the start of `b`.
pub open spec fn message(b: Seq<u8>, ctx: Context) -> Result<Parsed, ParseError> {
    let declared = bytes::be16(b, 2) as int;
    if b.len() < 1 {
        Err(bytes::short(b, 0, 1))
    } else if b[0] != BVLC_TYPE {
        Err(ParseError::Malformed("BVLC type is not 0x81 (BACnet/IP)"))
    } else if b.len() < 2 {
        Err(bytes::short(b, 1, 1))
    } else if b.len() < 4 {
        Err(bytes::short(b, 2, 2))
    } else if declared < 4 {
        Err(ParseError::Malformed("BVLC length smaller than the BVLC header itself"))
    } else {
        match walk(b) {
            Err(e) => Err(e),
            Ok(w) => if declared < w.end {
                Err(ParseError::Malformed("BVLC length shorter than the fields it must contain"))
            } else if b.len() < declared {
                Err(bytes::short(b, w.end, declared - w.end))
            } else {
                Ok(Parsed { header_len: declared, fields: fields(b, w, ctx), hint: Hint::Terminal })
            },
        }
    }
}

fn skip_address(r: &mut ByteReader, present: bool) -> (res: Result<(), ParseError>)
    requires
        old(r).wf(),
    ensures
        final(r).wf(),
        final(r).data == old(r).data,
        match address_end(old(r).data@, old(r).pos as int, present) {
            Ok(p) => res is Ok && final(r).pos == p,
            Err(e) => res == Err::<(), ParseError>(e),
        },
{
    if present {
        let _network: u16 = r.u16_be()?;
        let len: u8 = r.u8()?;
        let _address = r.take(len as usize)?;
    }
    Ok(())
}

/// The headers found, as the executable walk reports them.
struct Found {
    control: Option<u8>,
    apdu: Option<u8>,
    service: Option<u8>,
}

spec fn reports(res: Result<Found, ParseError>, r: ByteReader, w: Result<Walk, ParseError>) -> bool {
    match w {
        Ok(w) => res is Ok && r.pos == w.end && res->Ok_0.control == w.control && res->Ok_0.apdu
            == w.apdu && res->Ok_0.service == w.service,
        Err(e) => res == Err::<Found, ParseError>(e),
    }
}

fn read_apdu(r: &mut ByteReader, control: u8) -> (res: Result<Found, ParseError>)
    requires
        old(r).wf(),
    ensures
        final(r).wf(),
        final(r).data == old(r).data,
        reports(res, *final(r), apdu(old(r).data@, old(r).pos as int, control)),
{
    let first: u8 = r.u8()?;
    let pdu_type: u8 = first >> 4;
    let segmented: bool = first & APDU_SEG_FLAG != 0;
    if pdu_type == APDU_CONFIRMED_REQUEST {
        let _max_segments_and_apdu: u8 = r.u8()?;
        let _invoke_id: u8 = r.u8()?;
        if segmented {
            let _sequence_number: u8 = r.u8()?;
            let _window_size: u8 = r.u8()?;
        }
    } else if pdu_type == APDU_UNCONFIRMED_REQUEST {
    } else if pdu_type == APDU_SIMPLE_ACK {
        let _invoke_id: u8 = r.u8()?;
    } else if pdu_type == APDU_COMPLEX_ACK {
        let _invoke_id: u8 = r.u8()?;
        if segmented {
            let _sequence_number: u8 = r.u8()?;
            let _window_size: u8 = r.u8()?;
        }
    } else {
        return Ok(Found { control: Some(control), apdu: Some(pdu_type), service: None });
    }
    let service: u8 = r.u8()?;
    Ok(Found { control: Some(control), apdu: Some(pdu_type), service: Some(service) })
}

fn read_npdu(r: &mut ByteReader) -> (res: Result<Found, ParseError>)
    requires
        old(r).wf(),
    ensures
        final(r).wf(),
        final(r).data == old(r).data,
        reports(res, *final(r), npdu(old(r).data@, old(r).pos as int)),
{
    let version: u8 = r.u8()?;
    if version != NPDU_VERSION {
        return Err(ParseError::Malformed("NPDU version is not 1"));
    }
    let control: u8 = r.u8()?;
    let routed: bool = control & CONTROL_DEST_PRESENT != 0;
    skip_address(r, routed)?;
    skip_address(r, control & CONTROL_SRC_PRESENT != 0)?;
    if routed {
        let _hop_count: u8 = r.u8()?;
    }
    if control & CONTROL_NETWORK_LAYER_MSG != 0 {
        let message_type: u8 = r.u8()?;
        if message_type >= 0x80 {
            let _vendor_id: u16 = r.u16_be()?;
        }
        Ok(Found { control: Some(control), apdu: None, service: None })
    } else {
        read_apdu(r, control)
    }
}

pub struct BacnetIp;

impl LayerPlugin for BacnetIp {
    open spec fn spec_parse(&self, bytes: Seq<u8>, ctx: Context) -> Result<Parsed, ParseError> {
        message(bytes, ctx)
    }

    open spec fn spec_name(&self) -> Seq<char> {
        "bacnet_ip"@
    }

    open spec fn spec_claims(&self) -> Seq<RouteId> {
        seq![RouteId::UdpPort(47808)]
    }

    open spec fn spec_identity(&self) -> Option<Identity> {
        identity::conversation_of(
            seq![KeyField { a: APP, b: None }],
            seq![RollupSpec { field: SERVICE_CHOICE, kind: RollupKind::Accumulate }],
        )
    }

    open spec fn spec_condense(&self) -> Option<CondenseSpec> {
        None
    }

    open spec fn spec_has_probe(&self) -> bool {
        true
    }

    /// The type byte, a defined function and a length that covers the header.
    open spec fn spec_probe(&self, bytes: Seq<u8>, ctx: Context) -> Option<u8> {
        if bytes.len() >= 4 && bytes[0] == BVLC_TYPE && bytes[1] <= LAST_FUNCTION && bytes::be16(
            bytes,
            2,
        ) >= 4 {
            Some(60u8)
        } else {
            None
        }
    }

    open spec fn spec_predecessors(&self) -> Seq<ProtocolName> {
        Seq::empty()
    }

    fn name(&self) -> (r: ProtocolName) {
        "bacnet_ip"
    }

    fn parse(&self, bytes: &[u8], ctx: &ParseCtx) -> (r: Result<ParsedLayer, ParseError>) {
        let mut r = ByteReader::new(bytes);
        let bvlc_type: u8 = r.u8()?;
        if bvlc_type != BVLC_TYPE {
            return Err(ParseError::Malformed("BVLC type is not 0x81 (BACnet/IP)"));
        }
        let function: u8 = r.u8()?;
        let declared: usize = r.u16_be()? as usize;
        if declared < 4 {
            return Err(ParseError::Malformed("BVLC length smaller than the BVLC header itself"));
        }
        let mut found = Found { control: None, apdu: None, service: None };
        if function == FN_ORIGINAL_UNICAST_NPDU || function == FN_ORIGINAL_BROADCAST_NPDU || function
            == FN_FORWARDED_NPDU {
            if function == FN_FORWARDED_NPDU {
                let _original_source = r.take(6)?;
            }
            found = read_npdu(&mut r)?;
        }
        let consumed: usize = bytes.len() - r.remaining();
        if declared < consumed {
            return Err(ParseError::Malformed("BVLC length shorter than the fields it must contain"));
        }
        let _tail = r.take(declared - consumed)?;

        let mut fields = FieldMap::new();
        if ctx.keys() {
            fields.insert(APP, Value::from("bacnet"));
        }
        if ctx.structural() {
            fields.insert(BVLC_FUNCTION, Value::U64(function as u64));
            if let Some(c) = found.control {
                fields.insert(NPDU_CONTROL, Value::U64(c as u64));
            }
        }
        if ctx.full() {
            if let Some(t) = found.apdu {
                fields.insert(APDU_TYPE, Value::U64(t as u64));
            }
            if let Some(s) = found.service {
                fields.insert(SERVICE_CHOICE, Value::U64(s as u64));
            }
        }
        Ok(ParsedLayer { header_len: bytes.len() - r.remaining(), fields, hint: Hint::Terminal })
    }

    fn claims(&self) -> (r: &'static [RouteId]) {
        &[RouteId::UdpPort(47808)]
    }

    fn stream_identity(&self) -> (r: Option<StreamIdentity>) {
        identity::conversation(
            &[KeyField { a: APP, b: None }],
            &[RollupSpec { field: SERVICE_CHOICE, kind: RollupKind::Accumulate }],
        )
    }

    fn condense(&self) -> (r: Option<CondenseSpec>) {
        None
    }

    fn has_probe(&self) -> (r: bool) {
        true
    }

    fn probe(&self, bytes: &[u8], ctx: &ParseCtx) -> (r: Option<Confidence>) {
        if bytes.len() < 4 {
            return None;
        }
        let length: u16 = bytes[2] as u16 * 0x100 + bytes[3] as u16;
        if bytes[0] == BVLC_TYPE && bytes[1] <= LAST_FUNCTION && length >= 4 {
            Some(Confidence::new(60))
        } else {
            None
        }
    }

    fn expected_predecessors(&self) -> (r: &'static [ProtocolName]) {
        &[]
    }
}

} // verus!

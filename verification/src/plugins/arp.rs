//! ARP (RFC 826): requests and replies, not a conversation. It forms no stream and
//! ends the packet; its packets count into the MAC conversation around it.
use vstd::prelude::*;

use crate::bytes::{self, ByteReader, ParseError};
use crate::identity::{CondenseSpec, Identity, StreamIdentity};
use crate::layer::{Confidence, Context, Hint, LayerPlugin, ParseCtx, Parsed, ParsedLayer, RouteId};
use crate::value::{FieldMap, FieldName, Fields, ProtocolName, Value, ValueView};

verus! {

pub const OPCODE: FieldName = "opcode";

pub const SENDER_MAC: FieldName = "sender_mac";

pub const SENDER_IP: FieldName = "sender_ip";

pub const TARGET_MAC: FieldName = "target_mac";

pub const TARGET_IP: FieldName = "target_ip";

/// The hardware address length.
pub open spec fn hlen(b: Seq<u8>) -> int {
    b[4] as int
}

/// The protocol address length.
pub open spec fn plen(b: Seq<u8>) -> int {
    b[5] as int
}

pub open spec fn fields(b: Seq<u8>, ctx: Context) -> Fields {
    let f = Map::<Seq<char>, ValueView>::empty();
    if ctx.structural() {
        f
            .insert(OPCODE@, ValueView::U64(bytes::be16(b, 6) as u64))
            .insert(SENDER_MAC@, ValueView::Bytes(b.subrange(8, 8 + hlen(b))))
            .insert(SENDER_IP@, ValueView::Bytes(b.subrange(8 + hlen(b), 8 + hlen(b) + plen(b))))
            .insert(
                TARGET_MAC@,
                ValueView::Bytes(b.subrange(8 + hlen(b) + plen(b), 8 + 2 * hlen(b) + plen(b))),
            )
            .insert(
                TARGET_IP@,
                ValueView::Bytes(
                    b.subrange(8 + 2 * hlen(b) + plen(b), 8 + 2 * (hlen(b) + plen(b))),
                ),
            )
    } else {
        f
    }
}

/// The message at the start of `b`.
pub open spec fn message(b: Seq<u8>, ctx: Context) -> Result<Parsed, ParseError> {
    if b.len() < 4 {
        Err(bytes::short(b, b.len() - b.len() % 2, 2))
    } else if b.len() < 6 {
        Err(bytes::short(b, b.len() as int, 1))
    } else if hlen(b) == 0 || plen(b) == 0 {
        Err(ParseError::Malformed("zero address length"))
    } else if b.len() < 8 {
        Err(bytes::short(b, 6, 2))
    } else if b.len() < 8 + hlen(b) {
        Err(bytes::short(b, 8, hlen(b)))
    } else if b.len() < 8 + hlen(b) + plen(b) {
        Err(bytes::short(b, 8 + hlen(b), plen(b)))
    } else if b.len() < 8 + 2 * hlen(b) + plen(b) {
        Err(bytes::short(b, 8 + hlen(b) + plen(b), hlen(b)))
    } else if b.len() < 8 + 2 * (hlen(b) + plen(b)) {
        Err(bytes::short(b, 8 + 2 * hlen(b) + plen(b), plen(b)))
    } else {
        Ok(
            Parsed {
                header_len: 8 + 2 * (hlen(b) + plen(b)),
                fields: fields(b, ctx),
                hint: Hint::Terminal,
            },
        )
    }
}

pub struct Arp;

impl LayerPlugin for Arp {
    open spec fn spec_parse(&self, bytes: Seq<u8>, ctx: Context) -> Result<Parsed, ParseError> {
        message(bytes, ctx)
    }

    open spec fn spec_name(&self) -> Seq<char> {
        "arp"@
    }

    open spec fn spec_claims(&self) -> Seq<RouteId> {
        seq![RouteId::EtherType(0x0806)]
    }

    open spec fn spec_identity(&self) -> Option<Identity> {
        None
    }

    open spec fn spec_condense(&self) -> Option<CondenseSpec> {
        None
    }

    open spec fn spec_has_probe(&self) -> bool {
        false
    }

    open spec fn spec_probe(&self, bytes: Seq<u8>, ctx: Context) -> Option<u8> {
        None
    }

    open spec fn spec_predecessors(&self) -> Seq<ProtocolName> {
        Seq::empty()
    }

    fn name(&self) -> (r: ProtocolName) {
        "arp"
    }

    fn parse(&self, bytes: &[u8], ctx: &ParseCtx) -> (r: Result<ParsedLayer, ParseError>) {
        let mut r = ByteReader::new(bytes);
        let _htype: u16 = r.u16_be()?;
        let _ptype: u16 = r.u16_be()?;
        let hlen: u8 = r.u8()?;
        let plen: u8 = r.u8()?;
        if hlen == 0 || plen == 0 {
            return Err(ParseError::Malformed("zero address length"));
        }
        let opcode: u16 = r.u16_be()?;
        let sender_mac = r.take(hlen as usize)?;
        let sender_ip = r.take(plen as usize)?;
        let target_mac = r.take(hlen as usize)?;
        let target_ip = r.take(plen as usize)?;

        let mut fields = FieldMap::new();
        if ctx.structural() {
            fields.insert(OPCODE, Value::U64(opcode as u64));
            fields.insert(SENDER_MAC, Value::from(sender_mac));
            fields.insert(SENDER_IP, Value::from(sender_ip));
            fields.insert(TARGET_MAC, Value::from(target_mac));
            fields.insert(TARGET_IP, Value::from(target_ip));
        }
        Ok(
            ParsedLayer {
                header_len: 8 + 2 * (hlen as usize + plen as usize),
                fields,
                hint: Hint::Terminal,
            },
        )
    }

    fn claims(&self) -> (r: &'static [RouteId]) {
        &[RouteId::EtherType(0x0806)]
    }

    fn stream_identity(&self) -> (r: Option<StreamIdentity>) {
        None
    }

    fn condense(&self) -> (r: Option<CondenseSpec>) {
        None
    }

    fn has_probe(&self) -> (r: bool) {
        false
    }

    fn probe(&self, bytes: &[u8], ctx: &ParseCtx) -> (r: Option<Confidence>) {
        None
    }

    fn expected_predecessors(&self) -> (r: &'static [ProtocolName]) {
        &[]
    }
}

} // verus!

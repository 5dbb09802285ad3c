//! The IEEE 802.11 MAC header: management, control and data frames. Its multi-octet
//! fields are little-endian. A management frame is this layer from end to end (the
//! network name is looked up in its body); a control frame is its addresses; a data
//! frame is followed by an LLC header unless its body is empty or encrypted.
use vstd::prelude::*;

use crate::bytes::{self, ByteReader, ParseError};
use crate::identity::{
    self, CondenseSpec, Identity, KeyField, RollupKind, RollupSpec, StreamIdentity,
};
use crate::layer::{Confidence, Context, Hint, LayerPlugin, ParseCtx, Parsed, ParsedLayer, RouteId};
use crate::text;
use crate::value::{FieldMap, FieldName, Fields, ProtocolName, Value, ValueView};

verus! {

pub const FRAME_TYPE: FieldName = "frame_type";

pub const FRAME_SUBTYPE: FieldName = "frame_subtype";

pub const FLAGS: FieldName = "flags";

pub const DURATION: FieldName = "duration";

pub const SEQ_NUM: FieldName = "seq_num";

pub const ADDR1: FieldName = "addr1";

pub const ADDR2: FieldName = "addr2";

pub const ADDR3: FieldName = "addr3";

pub const ADDR4: FieldName = "addr4";

pub const QOS_CONTROL: FieldName = "qos_control";

pub const SSID: FieldName = "ssid";

pub const TYPE_MANAGEMENT: u8 = 0;

pub const TYPE_CONTROL: u8 = 1;

pub const TYPE_DATA: u8 = 2;

pub const SUBTYPE_PROBE_REQUEST: u8 = 0b0100;

pub const SUBTYPE_PROBE_RESPONSE: u8 = 0b0101;

pub const SUBTYPE_BEACON: u8 = 0b1000;

/// Control frames of these two subtypes carry one address only.
pub const SUBTYPE_CTS: u8 = 0b1100;

pub const SUBTYPE_ACK: u8 = 0b1101;

/// Timestamp, beacon interval and capabilities, ahead of a beacon's elements.
pub const MGMT_FIXED_FIELDS_LEN: usize = 12;

pub const FLAG_TO_DS: u8 = 0x01;

pub const FLAG_FROM_DS: u8 = 0x02;

pub const FLAG_PROTECTED: u8 = 0x40;

pub open spec fn frame_type(b: Seq<u8>) -> u8 {
    (b[0] >> 2) & 0b11
}

pub open spec fn frame_subtype(b: Seq<u8>) -> u8 {
    (b[0] >> 4) & 0b1111
}

/// Management and data frames have three addresses and a sequence number.
pub open spec fn sequenced(b: Seq<u8>) -> bool {
    frame_type(b) == TYPE_MANAGEMENT || frame_type(b) == TYPE_DATA
}

pub open spec fn has_addr2(b: Seq<u8>) -> bool {
    sequenced(b) || (frame_type(b) == TYPE_CONTROL && frame_subtype(b) != SUBTYPE_CTS
        && frame_subtype(b) != SUBTYPE_ACK)
}

/// A data frame between two distribution systems has a fourth address.
pub open spec fn has_addr4(b: Seq<u8>) -> bool {
    frame_type(b) == TYPE_DATA && b[1] & FLAG_TO_DS != 0 && b[1] & FLAG_FROM_DS != 0
}

pub open spec fn has_qos(b: Seq<u8>) -> bool {
    frame_type(b) == TYPE_DATA && frame_subtype(b) & 0b1000 != 0
}

/// Where a data frame's QoS control field stands, if it has one.
pub open spec fn qos_at(b: Seq<u8>) -> int {
    if has_addr4(b) {
        30
    } else {
        24
    }
}

pub open spec fn header_end(b: Seq<u8>) -> int {
    if frame_type(b) == TYPE_MANAGEMENT {
        b.len() as int
    } else if frame_type(b) == TYPE_DATA {
        if has_qos(b) {
            qos_at(b) + 2
        } else {
            qos_at(b)
        }
    } else if has_addr2(b) {
        16
    } else {
        10
    }
}

/// The text of the first SSID element (number zero) of the element chain at
/// `p`: element number, length, content.
pub open spec fn find_ssid(b: Seq<u8>, p: int) -> Option<Seq<char>>
    decreases b.len() - p,
{
    if p < 0 || b.len() < p + 2 || b.len() < p + 2 + b[p + 1] {
        None
    } else if b[p] == 0 {
        Some(text::display_text(b.subrange(p + 2, p + 2 + b[p + 1])))
    } else {
        find_ssid(b, p + 2 + b[p + 1])
    }
}

/// The network name a management frame announces.
pub open spec fn ssid(b: Seq<u8>) -> Option<Seq<char>> {
    if frame_type(b) != TYPE_MANAGEMENT {
        None
    } else if frame_subtype(b) == SUBTYPE_PROBE_REQUEST {
        find_ssid(b, 24)
    } else if frame_subtype(b) == SUBTYPE_BEACON || frame_subtype(b) == SUBTYPE_PROBE_RESPONSE {
        find_ssid(b, 24 + MGMT_FIXED_FIELDS_LEN)
    } else {
        None
    }
}

pub open spec fn fields(b: Seq<u8>, ctx: Context) -> Fields {
    let f = Map::<Seq<char>, ValueView>::empty();
    let f = if ctx.keys() {
        f.insert(ADDR1@, ValueView::Bytes(b.subrange(4, 10)))
    } else {
        f
    };
    let f = if ctx.keys() && has_addr2(b) {
        f.insert(ADDR2@, ValueView::Bytes(b.subrange(10, 16)))
    } else {
        f
    };
    let f = if ctx.structural() {
        f.insert(FRAME_TYPE@, ValueView::U64(frame_type(b) as u64)).insert(
            FRAME_SUBTYPE@,
            ValueView::U64(frame_subtype(b) as u64),
        ).insert(FLAGS@, ValueView::U64(b[1] as u64)).insert(
            DURATION@,
            ValueView::U64(bytes::le16(b, 2) as u64),
        )
    } else {
        f
    };
    let f = if ctx.structural() && sequenced(b) {
        f.insert(SEQ_NUM@, ValueView::U64((bytes::le16(b, 22) >> 4) as u64)).insert(
            ADDR3@,
            ValueView::Bytes(b.subrange(16, 22)),
        )
    } else {
        f
    };
    let f = if ctx.full() && has_addr4(b) {
        f.insert(ADDR4@, ValueView::Bytes(b.subrange(24, 30)))
    } else {
        f
    };
    let f = if ctx.full() && has_qos(b) {
        f.insert(QOS_CONTROL@, ValueView::U64(bytes::le16(b, qos_at(b)) as u64))
    } else {
        f
    };
    if ctx.full() && ssid(b) is Some {
        f.insert(SSID@, ValueView::Str(ssid(b)->0))
    } else {
        f
    }
}

/// The frame at the start of `b`.
pub open spec fn message(b: Seq<u8>, ctx: Context) -> Result<Parsed, ParseError> {
    if b.len() < 2 {
        Err(bytes::short(b, b.len() as int, 1))
    } else if b.len() < 4 {
        Err(bytes::short(b, 2, 2))
    } else if b.len() < 10 {
        Err(bytes::short(b, 4, 6))
    } else if has_addr2(b) && b.len() < 16 {
        Err(bytes::short(b, 10, 6))
    } else if sequenced(b) && b.len() < 22 {
        Err(bytes::short(b, 16, 6))
    } else if sequenced(b) && b.len() < 24 {
        Err(bytes::short(b, 22, 2))
    } else if has_addr4(b) && b.len() < 30 {
        Err(bytes::short(b, 24, 6))
    } else if has_qos(b) && b.len() < qos_at(b) + 2 {
        Err(bytes::short(b, qos_at(b), 2))
    } else {
        Ok(
            Parsed {
                header_len: header_end(b),
                fields: fields(b, ctx),
                hint: if frame_type(b) == TYPE_DATA && header_end(b) < b.len() && b[1]
                    & FLAG_PROTECTED == 0 {
                    Hint::ByProtocol("llc")
                } else {
                    Hint::Terminal
                },
            },
        )
    }
}

/// The network name in the element chain that starts at `at`.
fn extract_ssid(frame: &[u8], at: usize) -> (r: Option<String>)
    requires
        at + 2 <= usize::MAX,
    ensures
        match find_ssid(frame@, at as int) {
            Some(s) => r is Some && r->0@ == s,
            None => r is None,
        },
{
    let n: usize = frame.len();
    let mut p: usize = at;
    while p < n && n - p >= 2
        invariant
            n == frame@.len(),
            find_ssid(frame@, at as int) == find_ssid(frame@, p as int),
        decreases n - p,
    {
        let len: usize = frame[p + 1] as usize;
        if n - p - 2 < len {
            return None;
        }
        if frame[p] == 0 {
            return Some(text::decode_display(vstd::slice::slice_subrange(frame, p + 2, p + 2 + len)));
        }
        p = p + 2 + len;
    }
    None
}

pub struct Dot11;

impl LayerPlugin for Dot11 {
    open spec fn spec_parse(&self, bytes: Seq<u8>, ctx: Context) -> Result<Parsed, ParseError> {
        message(bytes, ctx)
    }

    open spec fn spec_name(&self) -> Seq<char> {
        "dot11"@
    }

    open spec fn spec_claims(&self) -> Seq<RouteId> {
        seq![RouteId::LinkType(105)]
    }

    open spec fn spec_identity(&self) -> Option<Identity> {
        identity::conversation_of(
            seq![KeyField { a: ADDR1, b: Some(ADDR2) }],
            seq![RollupSpec { field: FRAME_SUBTYPE, kind: RollupKind::Accumulate }],
        )
    }

    open spec fn spec_condense(&self) -> Option<CondenseSpec> {
        None
    }

    open spec fn spec_has_probe(&self) -> bool {
        false
    }

    open spec fn spec_probe(&self, bytes: Seq<u8>, ctx: Context) -> Option<u8> {
        None
    }

    open spec fn spec_predecessors(&self) -> Seq<ProtocolName> {
        Seq::empty()
    }

    fn name(&self) -> (r: ProtocolName) {
        "dot11"
    }

    fn parse(&self, bytes: &[u8], ctx: &ParseCtx) -> (r: Result<ParsedLayer, ParseError>) {
        let mut r = ByteReader::new(bytes);
        let fc0: u8 = r.u8()?;
        let fc1: u8 = r.u8()?;
        let duration: u16 = r.u16_le()?;
        let addr1 = r.take(6)?;

        let frame_type: u8 = (fc0 >> 2) & 0b11;
        let frame_subtype: u8 = (fc0 >> 4) & 0b1111;
        let mut addr2: Option<&[u8]> = None;
        let mut addr3: Option<&[u8]> = None;
        let mut addr4: Option<&[u8]> = None;
        let mut seq_num: Option<u64> = None;
        let mut qos_control: Option<u64> = None;
        let mut ssid: Option<String> = None;

        if frame_type == TYPE_MANAGEMENT || frame_type == TYPE_DATA {
            addr2 = Some(r.take(6)?);
            addr3 = Some(r.take(6)?);
            let seq_ctl: u16 = r.u16_le()?;
            seq_num = Some((seq_ctl >> 4) as u64);
            if frame_type == TYPE_MANAGEMENT {
                let rest: usize = r.remaining();
                let _body = r.take(rest)?;
                if frame_subtype == SUBTYPE_PROBE_REQUEST {
                    ssid = extract_ssid(bytes, 24);
                } else if frame_subtype == SUBTYPE_BEACON || frame_subtype == SUBTYPE_PROBE_RESPONSE {
                    ssid = extract_ssid(bytes, 24 + MGMT_FIXED_FIELDS_LEN);
                }
            } else {
                if fc1 & FLAG_TO_DS != 0 && fc1 & FLAG_FROM_DS != 0 {
                    addr4 = Some(r.take(6)?);
                }
                if frame_subtype & 0b1000 != 0 {
                    qos_control = Some(r.u16_le()? as u64);
                }
            }
        } else if frame_type == TYPE_CONTROL && frame_subtype != SUBTYPE_CTS && frame_subtype
            != SUBTYPE_ACK {
            addr2 = Some(r.take(6)?);
        }
        let header_len: usize = bytes.len() - r.remaining();

        let mut fields = FieldMap::new();
        if ctx.keys() {
            fields.insert(ADDR1, Value::from(addr1));
            if let Some(a) = addr2 {
                fields.insert(ADDR2, Value::from(a));
            }
        }
        if ctx.structural() {
            fields.insert(FRAME_TYPE, Value::U64(frame_type as u64));
            fields.insert(FRAME_SUBTYPE, Value::U64(frame_subtype as u64));
            fields.insert(FLAGS, Value::U64(fc1 as u64));
            fields.insert(DURATION, Value::U64(duration as u64));
            if let Some(s) = seq_num {
                fields.insert(SEQ_NUM, Value::U64(s));
            }
            if let Some(a) = addr3 {
                fields.insert(ADDR3, Value::from(a));
            }
        }
        if ctx.full() {
            if let Some(a) = addr4 {
                fields.insert(ADDR4, Value::from(a));
            }
            if let Some(q) = qos_control {
                fields.insert(QOS_CONTROL, Value::U64(q));
            }
            if let Some(s) = ssid {
                fields.insert(SSID, Value::Str(s));
            }
        }
        let hint = if frame_type == TYPE_DATA && header_len < bytes.len() && fc1 & FLAG_PROTECTED == 0 {
            Hint::ByProtocol("llc")
        } else {
            Hint::Terminal
        };
        Ok(ParsedLayer { header_len, fields, hint })
    }

    fn claims(&self) -> (r: &'static [RouteId]) {
        &[RouteId::LinkType(105)]
    }

    fn stream_identity(&self) -> (r: Option<StreamIdentity>) {
        identity::conversation(
            &[KeyField { a: ADDR1, b: Some(ADDR2) }],
            &[RollupSpec { field: FRAME_SUBTYPE, kind: RollupKind::Accumulate }],
        )
    }

    fn condense(&self) -> (r: Option<CondenseSpec>) {
        None
    }

    fn has_probe(&self) -> (r: bool) {
        false
    }

    fn probe(&self, bytes: &[u8], ctx: &ParseCtx) -> (r: Option<Confidence>) {
        None
    }

    fn expected_predecessors(&self) -> (r: &'static [ProtocolName]) {
        &[]
    }
}

} // verus!

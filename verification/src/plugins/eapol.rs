//! EAPOL (IEEE 802.1X): the 4-byte header, the body it announces and, for an
//! EAPOL-Key packet, the fixed fields of the key descriptor in that body. An EAP
//! packet's inner method is not read. Signalling on one port, not a conversation:
//! it forms no stream.
use vstd::prelude::*;

use crate::bytes::{self, ByteReader, ParseError};
use crate::identity::{CondenseSpec, Identity, StreamIdentity};
use crate::layer::{Confidence, Context, Hint, LayerPlugin, ParseCtx, Parsed, ParsedLayer, RouteId};
use crate::value::{FieldMap, FieldName, Fields, ProtocolName, Value, ValueView};

verus! {

pub const VERSION: FieldName = "version";

pub const PACKET_TYPE: FieldName = "packet_type";

pub const BODY_LENGTH: FieldName = "body_length";

pub const KEY_DESCRIPTOR_TYPE: FieldName = "key_descriptor_type";

pub const KEY_INFO: FieldName = "key_info";

pub const KEY_LENGTH: FieldName = "key_length";

pub const REPLAY_COUNTER: FieldName = "replay_counter";

pub const NONCE: FieldName = "nonce";

pub const KEY_IV: FieldName = "key_iv";

pub const KEY_RSC: FieldName = "key_rsc";

pub const KEY_MIC: FieldName = "key_mic";

pub const KEY_DATA_LENGTH: FieldName = "key_data_length";

pub const PACKET_TYPE_KEY: u8 = 3;

/// Why a body is too short for a key descriptor, if it is.
pub open spec fn descriptor_error(d: Seq<u8>) -> Option<ParseError> {
    if d.len() < 1 {
        Some(bytes::short(d, 0, 1))
    } else if d.len() < 3 {
        Some(bytes::short(d, 1, 2))
    } else if d.len() < 5 {
        Some(bytes::short(d, 3, 2))
    } else if d.len() < 13 {
        Some(bytes::short(d, 5, 8))
    } else if d.len() < 45 {
        Some(bytes::short(d, 13, 32))
    } else if d.len() < 61 {
        Some(bytes::short(d, 45, 16))
    } else if d.len() < 69 {
        Some(bytes::short(d, 61, 8))
    } else if d.len() < 77 {
        Some(bytes::short(d, 69, 8))
    } else if d.len() < 93 {
        Some(bytes::short(d, 77, 16))
    } else if d.len() < 95 {
        Some(bytes::short(d, 93, 2))
    } else {
        None
    }
}

pub open spec fn body(b: Seq<u8>) -> Seq<u8> {
    b.subrange(4, 4 + bytes::be16(b, 2))
}

pub open spec fn fields(b: Seq<u8>, ctx: Context) -> Fields {
    let f = Map::<Seq<char>, ValueView>::empty();
    let f = if ctx.structural() {
        f
            .insert(VERSION@, ValueView::U64(b[0] as u64))
            .insert(PACKET_TYPE@, ValueView::U64(b[1] as u64))
            .insert(BODY_LENGTH@, ValueView::U64(bytes::be16(b, 2) as u64))
    } else {
        f
    };
    if ctx.full() && b[1] == PACKET_TYPE_KEY {
        f
            .insert(KEY_DESCRIPTOR_TYPE@, ValueView::U64(body(b)[0] as u64))
            .insert(KEY_INFO@, ValueView::U64(bytes::be16(body(b), 1) as u64))
            .insert(KEY_LENGTH@, ValueView::U64(bytes::be16(body(b), 3) as u64))
            .insert(REPLAY_COUNTER@, ValueView::U64(bytes::be64(body(b), 5)))
            .insert(NONCE@, ValueView::Bytes(body(b).subrange(13, 45)))
            .insert(KEY_IV@, ValueView::Bytes(body(b).subrange(45, 61)))
            .insert(KEY_RSC@, ValueView::U64(bytes::be64(body(b), 61)))
            .insert(KEY_MIC@, ValueView::Bytes(body(b).subrange(77, 93)))
            .insert(KEY_DATA_LENGTH@, ValueView::U64(bytes::be16(body(b), 93) as u64))
    } else {
        f
    }
}

/// The packet at the start of `b`.
pub open spec fn message(b: Seq<u8>, ctx: Context) -> Result<Parsed, ParseError> {
    if b.len() < 2 {
        Err(bytes::short(b, b.len() as int, 1))
    } else if b.len() < 4 {
        Err(bytes::short(b, 2, 2))
    } else if b.len() < 4 + bytes::be16(b, 2) {
        Err(bytes::short(b, 4, bytes::be16(b, 2) as int))
    } else if b[1] == PACKET_TYPE_KEY && descriptor_error(body(b)) is Some {
        Err(descriptor_error(body(b))->0)
    } else {
        Ok(
            Parsed {
                header_len: 4 + bytes::be16(b, 2),
                fields: fields(b, ctx),
                hint: Hint::Terminal,
            },
        )
    }
}

/// The key descriptor's fixed fields.
struct KeyDescriptor<'a> {
    key_descriptor_type: u8,
    key_info: u16,
    key_length: u16,
    replay_counter: u64,
    nonce: &'a [u8],
    key_iv: &'a [u8],
    key_rsc: u64,
    key_mic: &'a [u8],
    key_data_length: u16,
}

fn read_key_descriptor<'a>(d: &'a [u8]) -> (res: Result<KeyDescriptor<'a>, ParseError>)
    ensures
        match descriptor_error(d@) {
            Some(e) => res is Err && res->Err_0 == e,
            None => res is Ok && {
                let k = res->Ok_0;
                &&& k.key_descriptor_type == d@[0]
                &&& k.key_info == bytes::be16(d@, 1)
                &&& k.key_length == bytes::be16(d@, 3)
                &&& k.replay_counter == bytes::be64(d@, 5)
                &&& k.nonce@ == d@.subrange(13, 45)
                &&& k.key_iv@ == d@.subrange(45, 61)
                &&& k.key_rsc == bytes::be64(d@, 61)
                &&& k.key_mic@ == d@.subrange(77, 93)
                &&& k.key_data_length == bytes::be16(d@, 93)
            },
        },
{
    let mut r = ByteReader::new(d);
    let key_descriptor_type: u8 = r.u8()?;
    let key_info: u16 = r.u16_be()?;
    let key_length: u16 = r.u16_be()?;
    let replay_counter: u64 = r.u64_be()?;
    let nonce = r.take(32)?;
    let key_iv = r.take(16)?;
    let key_rsc: u64 = r.u64_be()?;
    let _key_id = r.take(8)?;
    let key_mic = r.take(16)?;
    let key_data_length: u16 = r.u16_be()?;
    Ok(
        KeyDescriptor {
            key_descriptor_type,
            key_info,
            key_length,
            replay_counter,
            nonce,
            key_iv,
            key_rsc,
            key_mic,
            key_data_length,
        },
    )
}

pub struct Eapol;

impl LayerPlugin for Eapol {
    open spec fn spec_parse(&self, bytes: Seq<u8>, ctx: Context) -> Result<Parsed, ParseError> {
        message(bytes, ctx)
    }

    open spec fn spec_name(&self) -> Seq<char> {
        "eapol"@
    }

    open spec fn spec_claims(&self) -> Seq<RouteId> {
        seq![RouteId::EtherType(0x888E)]
    }

    open spec fn spec_identity(&self) -> Option<Identity> {
        None
    }

    open spec fn spec_condense(&self) -> Option<CondenseSpec> {
        None
    }

    open spec fn spec_has_probe(&self) -> bool {
        false
    }

    open spec fn spec_probe(&self, bytes: Seq<u8>, ctx: Context) -> Option<u8> {
        None
    }

    open spec fn spec_predecessors(&self) -> Seq<ProtocolName> {
        Seq::empty()
    }

    fn name(&self) -> (r: ProtocolName) {
        "eapol"
    }

    fn parse(&self, bytes: &[u8], ctx: &ParseCtx) -> (r: Result<ParsedLayer, ParseError>) {
        let mut r = ByteReader::new(bytes);
        let version: u8 = r.u8()?;
        let packet_type: u8 = r.u8()?;
        let body_length: u16 = r.u16_be()?;
        let body = r.take(body_length as usize)?;
        let mut key: Option<KeyDescriptor> = None;
        if packet_type == PACKET_TYPE_KEY {
            key = Some(read_key_descriptor(body)?);
        }

        let mut fields = FieldMap::new();
        if ctx.structural() {
            fields.insert(VERSION, Value::U64(version as u64));
            fields.insert(PACKET_TYPE, Value::U64(packet_type as u64));
            fields.insert(BODY_LENGTH, Value::U64(body_length as u64));
        }
        if ctx.full() {
            if let Some(k) = key {
                fields.insert(KEY_DESCRIPTOR_TYPE, Value::U64(k.key_descriptor_type as u64));
                fields.insert(KEY_INFO, Value::U64(k.key_info as u64));
                fields.insert(KEY_LENGTH, Value::U64(k.key_length as u64));
                fields.insert(REPLAY_COUNTER, Value::U64(k.replay_counter));
                fields.insert(NONCE, Value::from(k.nonce));
                fields.insert(KEY_IV, Value::from(k.key_iv));
                fields.insert(KEY_RSC, Value::U64(k.key_rsc));
                fields.insert(KEY_MIC, Value::from(k.key_mic));
                fields.insert(KEY_DATA_LENGTH, Value::U64(k.key_data_length as u64));
            }
        }
        Ok(ParsedLayer { header_len: 4 + body_length as usize, fields, hint: Hint::Terminal })
    }

    fn claims(&self) -> (r: &'static [RouteId]) {
        &[RouteId::EtherType(0x888E)]
    }

    fn stream_identity(&self) -> (r: Option<StreamIdentity>) {
        None
    }

    fn condense(&self) -> (r: Option<CondenseSpec>) {
        None
    }

    fn has_probe(&self) -> (r: bool) {
        false
    }

    fn probe(&self, bytes: &[u8], ctx: &ParseCtx) -> (r: Option<Confidence>) {
        None
    }

    fn expected_predecessors(&self) -> (r: &'static [ProtocolName]) {
        &[]
    }
}

} // verus!

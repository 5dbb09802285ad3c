//! Kerberos 5 (RFC 4120): a message is one application-tagged DER value whose tag
//! number is the message type. Its content is consumed unread.
use vstd::prelude::*;

use crate::bytes::{self, ByteReader, ParseError};
use crate::identity::{
    self, CondenseSpec, Identity, KeyField, RollupKind, RollupSpec, StreamIdentity,
};
use crate::layer::{Confidence, Context, Hint, LayerPlugin, ParseCtx, Parsed, ParsedLayer, RouteId};
use crate::der;
use crate::value::{FieldMap, FieldName, Fields, ProtocolName, Value, ValueView};

verus! {

pub const APP: FieldName = "app";

pub const MSG_TYPE: FieldName = "msg_type";

pub const DER_LENGTH: FieldName = "der_length";

/// The class and form bits of an identifier octet.
pub const CLASS_AND_FORM: u8 = 0xE0;

pub const APPLICATION_CONSTRUCTED: u8 = 0x60;

pub const TAG_NUMBER: u8 = 0x1F;

pub const AS_REQ: u8 = 10;

pub const AS_REP: u8 = 11;

pub const TGS_REQ: u8 = 12;

pub const TGS_REP: u8 = 13;

pub const AP_REQ: u8 = 14;

pub const AP_REP: u8 = 15;

pub const KRB_ERROR: u8 = 30;

pub open spec fn msg_type(b: Seq<u8>) -> u8 {
    b[0] & TAG_NUMBER
}

pub open spec fn recognized(kind: u8) -> bool {
    ||| kind == AS_REQ
    ||| kind == AS_REP
    ||| kind == TGS_REQ
    ||| kind == TGS_REP
    ||| kind == AP_REQ
    ||| kind == AP_REP
    ||| kind == KRB_ERROR
}

pub open spec fn fields(b: Seq<u8>, length: u64, ctx: Context) -> Fields {
    let f = Map::<Seq<char>, ValueView>::empty();
    let f = if ctx.keys() {
        f.insert(APP@, ValueView::Str("kerberos"@))
    } else {
        f
    };
    if ctx.structural() {
        f
            .insert(MSG_TYPE@, ValueView::U64(msg_type(b) as u64))
            .insert(DER_LENGTH@, ValueView::U64(length))
    } else {
        f
    }
}

/// The message at the start of `b`.
pub open spec fn message(b: Seq<u8>, ctx: Context) -> Result<Parsed, ParseError> {
    if b.len() < 1 {
        Err(bytes::short(b, 0, 1))
    } else if b[0] & CLASS_AND_FORM != APPLICATION_CONSTRUCTED {
        Err(ParseError::Malformed("not a Kerberos [APPLICATION n] SEQUENCE tag"))
    } else if !recognized(msg_type(b)) {
        Err(ParseError::Malformed("unrecognized Kerberos msg-type"))
    } else {
        match der::length_at(b, 1) {
            Err(e) => Err(e),
            Ok((length, at)) => if b.len() < at + der::in_memory(length) {
                Err(bytes::short(b, at, der::in_memory(length)))
            } else {
                Ok(
                    Parsed {
                        header_len: at + der::in_memory(length),
                        fields: fields(b, length, ctx),
                        hint: Hint::Terminal,
                    },
                )
            },
        }
    }
}

fn is_recognized_msg_type(kind: u8) -> (r: bool)
    ensures
        r == recognized(kind),
{
    match kind {
        AS_REQ | AS_REP | TGS_REQ | TGS_REP | AP_REQ | AP_REP | KRB_ERROR => true,
        _ => false,
    }
}

pub struct Kerberos;

impl LayerPlugin for Kerberos {
    open spec fn spec_parse(&self, bytes: Seq<u8>, ctx: Context) -> Result<Parsed, ParseError> {
        message(bytes, ctx)
    }

    open spec fn spec_name(&self) -> Seq<char> {
        "kerberos"@
    }

    open spec fn spec_claims(&self) -> Seq<RouteId> {
        seq![RouteId::UdpPort(88), RouteId::TcpPort(88)]
    }

    open spec fn spec_identity(&self) -> Option<Identity> {
        identity::conversation_of(
            seq![KeyField { a: APP, b: None }],
            seq![RollupSpec { field: MSG_TYPE, kind: RollupKind::Accumulate }],
        )
    }

    open spec fn spec_condense(&self) -> Option<CondenseSpec> {
        None
    }

    open spec fn spec_has_probe(&self) -> bool {
        false
    }

    open spec fn spec_probe(&self, bytes: Seq<u8>, ctx: Context) -> Option<u8> {
        None
    }

    open spec fn spec_predecessors(&self) -> Seq<ProtocolName> {
        Seq::empty()
    }

    fn name(&self) -> (r: ProtocolName) {
        "kerberos"
    }

    fn parse(&self, bytes: &[u8], ctx: &ParseCtx) -> (r: Result<ParsedLayer, ParseError>) {
        let mut r = ByteReader::new(bytes);
        let tag: u8 = r.u8()?;
        if tag & CLASS_AND_FORM != APPLICATION_CONSTRUCTED {
            return Err(ParseError::Malformed("not a Kerberos [APPLICATION n] SEQUENCE tag"));
        }
        let msg_type: u8 = tag & TAG_NUMBER;
        if !is_recognized_msg_type(msg_type) {
            return Err(ParseError::Malformed("unrecognized Kerberos msg-type"));
        }
        let length: u64 = der::read_length(&mut r)?;
        let _content = r.take(der::to_count(length))?;

        let mut fields = FieldMap::new();
        if ctx.keys() {
            fields.insert(APP, Value::from("kerberos"));
        }
        if ctx.structural() {
            fields.insert(MSG_TYPE, Value::U64(msg_type as u64));
            fields.insert(DER_LENGTH, Value::U64(length));
        }
        Ok(ParsedLayer { header_len: r.pos, fields, hint: Hint::Terminal })
    }

    fn claims(&self) -> (r: &'static [RouteId]) {
        &[RouteId::UdpPort(88), RouteId::TcpPort(88)]
    }

    fn stream_identity(&self) -> (r: Option<StreamIdentity>) {
        identity::conversation(
            &[KeyField { a: APP, b: None }],
            &[RollupSpec { field: MSG_TYPE, kind: RollupKind::Accumulate }],
        )
    }

    fn condense(&self) -> (r: Option<CondenseSpec>) {
        None
    }

    fn has_probe(&self) -> (r: bool) {
        false
    }

    fn probe(&self, bytes: &[u8], ctx: &ParseCtx) -> (r: Option<Confidence>) {
        None
    }

    fn expected_predecessors(&self) -> (r: &'static [ProtocolName]) {
        &[]
    }
}

} // verus!

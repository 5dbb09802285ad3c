//! LDAP (RFC 4511): the first message of a segment. A message is a BER sequence of
//! an id and an operation; the operation's tag number is kept, and of a bind request
//! the name that is bound, where it can be read.
use vstd::prelude::*;

use crate::bytes::{self, ByteReader, ParseError};
use crate::identity::{
    self, CondenseSpec, Identity, KeyField, RollupKind, RollupSpec, StreamIdentity,
};
use crate::layer::{Confidence, Context, Hint, LayerPlugin, ParseCtx, Parsed, ParsedLayer, RouteId};
use crate::der;
use crate::text;
use crate::value::{FieldMap, FieldName, Fields, ProtocolName, Value, ValueView};

verus! {

pub const APP: FieldName = "app";

pub const MESSAGE_ID: FieldName = "message_id";

pub const PROTOCOL_OP: FieldName = "protocol_op";

pub const BIND_DN: FieldName = "bind_dn";

pub const TAG_SEQUENCE: u8 = 0x30;

pub const TAG_INTEGER: u8 = 0x02;

pub const TAG_OCTET_STRING: u8 = 0x04;

/// The class bits of an identifier octet.
pub const CLASS: u8 = 0xC0;

pub const APPLICATION_CLASS: u8 = 0x40;

pub const TAG_NUMBER: u8 = 0x1F;

pub const BIND_REQUEST: u8 = 0;

/// What a message says.
pub struct Envelope {
    pub message_id: u64,
    pub tag: u8,
    pub operation: Seq<u8>,
}

/// The id and the operation in the content of a message.
pub open spec fn envelope(c: Seq<u8>) -> Result<Envelope, ParseError> {
    match der::tlv_at(c, 0) {
        Err(e) => Err(e),
        Ok((id_tag, id, at)) => if id_tag != TAG_INTEGER {
            Err(ParseError::Malformed("LDAPMessage missing messageID"))
        } else if id.len() == 0 || id.len() > 8 {
            Err(ParseError::Malformed("messageID too wide"))
        } else {
            match der::tlv_at(c, at) {
                Err(e) => Err(e),
                Ok((tag, operation, _)) => if tag & CLASS != APPLICATION_CLASS {
                    Err(ParseError::Malformed("protocolOp is not an APPLICATION-tagged CHOICE"))
                } else {
                    Ok(Envelope { message_id: der::number(id) as u64, tag, operation })
                },
            }
        },
    }
}

/// The name in a bind request: the second value, behind the version.
pub open spec fn bind_dn(operation: Seq<u8>) -> Option<Seq<char>> {
    match der::tlv_at(operation, 0) {
        Err(_) => None,
        Ok((version, _, at)) => match der::tlv_at(operation, at) {
            Err(_) => None,
            Ok((tag, name, _)) => if version == TAG_INTEGER && tag == TAG_OCTET_STRING
                && vstd::utf8::valid_utf8(name) {
                Some(vstd::utf8::decode_utf8(name))
            } else {
                None
            },
        },
    }
}

pub open spec fn fields(m: Envelope, ctx: Context) -> Fields {
    let f = Map::<Seq<char>, ValueView>::empty();
    let f = if ctx.keys() {
        f.insert(APP@, ValueView::Str("ldap"@))
    } else {
        f
    };
    let f = if ctx.structural() {
        f
            .insert(MESSAGE_ID@, ValueView::U64(m.message_id))
            .insert(PROTOCOL_OP@, ValueView::U64((m.tag & TAG_NUMBER) as u64))
    } else {
        f
    };
    if ctx.full() && m.tag & TAG_NUMBER == BIND_REQUEST && bind_dn(m.operation) is Some {
        f.insert(BIND_DN@, ValueView::Str(bind_dn(m.operation)->0))
    } else {
        f
    }
}

/// The message at the start of `b`.
pub open spec fn message(b: Seq<u8>, ctx: Context) -> Result<Parsed, ParseError> {
    match der::tlv_at(b, 0) {
        Err(e) => Err(e),
        Ok((tag, content, end)) => if tag != TAG_SEQUENCE {
            Err(ParseError::Malformed("not an LDAPMessage SEQUENCE"))
        } else {
            match envelope(content) {
                Err(e) => Err(e),
                Ok(m) => Ok(
                    Parsed { header_len: end, fields: fields(m, ctx), hint: Hint::Terminal },
                ),
            }
        },
    }
}

struct Operation<'a> {
    message_id: u64,
    tag: u8,
    content: &'a [u8],
}

fn read_envelope<'a>(content: &'a [u8]) -> (res: Result<Operation<'a>, ParseError>)
    ensures
        match envelope(content@) {
            Ok(m) => res is Ok && res->Ok_0.message_id == m.message_id && res->Ok_0.tag == m.tag
                && res->Ok_0.content@ == m.operation,
            Err(e) => res is Err && res->Err_0 == e,
        },
{
    let mut r = ByteReader::new(content);
    let id = der::read_tlv(&mut r)?;
    if id.tag != TAG_INTEGER {
        return Err(ParseError::Malformed("LDAPMessage missing messageID"));
    }
    if id.content.len() == 0 || id.content.len() > 8 {
        return Err(ParseError::Malformed("messageID too wide"));
    }
    let message_id: u64 = der::read_number(id.content);
    let op = der::read_tlv(&mut r)?;
    if op.tag & CLASS != APPLICATION_CLASS {
        return Err(ParseError::Malformed("protocolOp is not an APPLICATION-tagged CHOICE"));
    }
    Ok(Operation { message_id, tag: op.tag, content: op.content })
}

fn read_bind_dn(operation: &[u8]) -> (r: Option<String>)
    ensures
        match bind_dn(operation@) {
            Some(dn) => r is Some && r->0@ == dn,
            None => r is None,
        },
{
    let mut r = ByteReader::new(operation);
    let version = match der::read_tlv(&mut r) {
        Ok(v) => v,
        Err(_) => {
            return None;
        },
    };
    if version.tag != TAG_INTEGER {
        return None;
    }
    let name = match der::read_tlv(&mut r) {
        Ok(n) => n,
        Err(_) => {
            return None;
        },
    };
    if name.tag != TAG_OCTET_STRING {
        return None;
    }
    text::utf8_checked(name.content)
}

pub struct Ldap;

impl LayerPlugin for Ldap {
    open spec fn spec_parse(&self, bytes: Seq<u8>, ctx: Context) -> Result<Parsed, ParseError> {
        message(bytes, ctx)
    }

    open spec fn spec_name(&self) -> Seq<char> {
        "ldap"@
    }

    open spec fn spec_claims(&self) -> Seq<RouteId> {
        seq![RouteId::TcpPort(389)]
    }

    open spec fn spec_identity(&self) -> Option<Identity> {
        identity::conversation_of(
            seq![KeyField { a: APP, b: None }],
            seq![
                RollupSpec { field: PROTOCOL_OP, kind: RollupKind::Accumulate },
                RollupSpec { field: BIND_DN, kind: RollupKind::Sample },
            ],
        )
    }

    open spec fn spec_condense(&self) -> Option<CondenseSpec> {
        None
    }

    open spec fn spec_has_probe(&self) -> bool {
        false
    }

    open spec fn spec_probe(&self, bytes: Seq<u8>, ctx: Context) -> Option<u8> {
        None
    }

    open spec fn spec_predecessors(&self) -> Seq<ProtocolName> {
        Seq::empty()
    }

    fn name(&self) -> (r: ProtocolName) {
        "ldap"
    }

    fn parse(&self, bytes: &[u8], ctx: &ParseCtx) -> (r: Result<ParsedLayer, ParseError>) {
        let mut r = ByteReader::new(bytes);
        let outer = der::read_tlv(&mut r)?;
        if outer.tag != TAG_SEQUENCE {
            return Err(ParseError::Malformed("not an LDAPMessage SEQUENCE"));
        }
        let op = read_envelope(outer.content)?;
        let protocol_op: u8 = op.tag & TAG_NUMBER;

        let mut fields = FieldMap::new();
        if ctx.keys() {
            fields.insert(APP, Value::from("ldap"));
        }
        if ctx.structural() {
            fields.insert(MESSAGE_ID, Value::U64(op.message_id));
            fields.insert(PROTOCOL_OP, Value::U64(protocol_op as u64));
        }
        if ctx.full() && protocol_op == BIND_REQUEST {
            if let Some(dn) = read_bind_dn(op.content) {
                fields.insert(BIND_DN, Value::Str(dn));
            }
        }
        Ok(ParsedLayer { header_len: r.pos, fields, hint: Hint::Terminal })
    }

    fn claims(&self) -> (r: &'static [RouteId]) {
        &[RouteId::TcpPort(389)]
    }

    fn stream_identity(&self) -> (r: Option<StreamIdentity>) {
        identity::conversation(
            &[KeyField { a: APP, b: None }],
            &[
                RollupSpec { field: PROTOCOL_OP, kind: RollupKind::Accumulate },
                RollupSpec { field: BIND_DN, kind: RollupKind::Sample },
            ],
        )
    }

    fn condense(&self) -> (r: Option<CondenseSpec>) {
        None
    }

    fn has_probe(&self) -> (r: bool) {
        false
    }

    fn probe(&self, bytes: &[u8], ctx: &ParseCtx) -> (r: Option<Confidence>) {
        None
    }

    fn expected_predecessors(&self) -> (r: &'static [ProtocolName]) {
        &[]
    }
}

} // verus!

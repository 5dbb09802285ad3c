//! HSRP (RFC 2281), the hot standby router protocol: one fixed 20-byte message
//! of version 0. Everything that a speaker of one standby group sends lands in
//! one stream, whichever router holds the group at the time.
use vstd::prelude::*;

use crate::bytes::{self, ByteReader, ParseError};
use crate::identity::{
    self, CondenseSpec, Identity, KeyField, RollupKind, RollupSpec, StreamIdentity,
};
use crate::layer::{Confidence, Context, Hint, LayerPlugin, ParseCtx, Parsed, ParsedLayer, RouteId};
use crate::value::{FieldMap, FieldName, Fields, ProtocolName, Value, ValueView};

verus! {

pub const GROUP: FieldName = "group";

pub const VERSION: FieldName = "version";

pub const OPCODE: FieldName = "opcode";

pub const STATE: FieldName = "state";

pub const PRIORITY: FieldName = "priority";

pub const HELLOTIME: FieldName = "hellotime";

pub const HOLDTIME: FieldName = "holdtime";

pub const VIRTUAL_IP: FieldName = "virtual_ip";

pub const AUTH_DATA: FieldName = "auth_data";

/// The only version with this layout.
pub const VERSION_1: u8 = 0;

pub const HEADER_LEN: usize = 20;

/// The fields of the message `b`.
pub open spec fn fields(b: Seq<u8>, ctx: Context) -> Fields {
    let f = Map::<Seq<char>, ValueView>::empty();
    let f = if ctx.keys() {
        f.insert(GROUP@, ValueView::U64(b[6] as u64))
    } else {
        f
    };
    let f = if ctx.structural() {
        f.insert(VERSION@, ValueView::U64(b[0] as u64)).insert(
            OPCODE@,
            ValueView::U64(b[1] as u64),
        ).insert(STATE@, ValueView::U64(b[2] as u64)).insert(
            PRIORITY@,
            ValueView::U64(b[5] as u64),
        ).insert(HELLOTIME@, ValueView::U64(b[3] as u64)).insert(
            HOLDTIME@,
            ValueView::U64(b[4] as u64),
        )
    } else {
        f
    };
    if ctx.full() {
        f.insert(VIRTUAL_IP@, ValueView::Bytes(b.subrange(16, 20))).insert(
            AUTH_DATA@,
            ValueView::Bytes(b.subrange(8, 16)),
        )
    } else {
        f
    }
}

/// The message at the start of `b`.
pub open spec fn message(b: Seq<u8>, ctx: Context) -> Result<Parsed, ParseError> {
    if b.len() < 1 {
        Err(bytes::short(b, 0, 1))
    } else if b[0] != VERSION_1 {
        Err(ParseError::Malformed("HSRP: unsupported version"))
    } else if b.len() < 8 {
        Err(bytes::short(b, b.len() as int, 1))
    } else if b.len() < 16 {
        Err(bytes::short(b, 8, 8))
    } else if b.len() < 20 {
        Err(bytes::short(b, 16, 4))
    } else {
        Ok(Parsed { header_len: 20, fields: fields(b, ctx), hint: Hint::Terminal })
    }
}

pub struct Hsrp;

impl LayerPlugin for Hsrp {
    open spec fn spec_parse(&self, bytes: Seq<u8>, ctx: Context) -> Result<Parsed, ParseError> {
        message(bytes, ctx)
    }

    open spec fn spec_name(&self) -> Seq<char> {
        "hsrp"@
    }

    open spec fn spec_claims(&self) -> Seq<RouteId> {
        seq![RouteId::UdpPort(1985)]
    }

    open spec fn spec_identity(&self) -> Option<Identity> {
        identity::conversation_of(
            seq![KeyField { a: GROUP, b: None }],
            seq![
                RollupSpec { field: STATE, kind: RollupKind::Accumulate },
                RollupSpec { field: PRIORITY, kind: RollupKind::Accumulate },
            ],
        )
    }

    open spec fn spec_condense(&self) -> Option<CondenseSpec> {
        None
    }

    open spec fn spec_has_probe(&self) -> bool {
        false
    }

    open spec fn spec_probe(&self, bytes: Seq<u8>, ctx: Context) -> Option<u8> {
        None
    }

    open spec fn spec_predecessors(&self) -> Seq<ProtocolName> {
        Seq::empty()
    }

    fn name(&self) -> (r: ProtocolName) {
        "hsrp"
    }

    fn parse(&self, bytes: &[u8], ctx: &ParseCtx) -> (r: Result<ParsedLayer, ParseError>) {
        let mut r = ByteReader::new(bytes);
        let version: u8 = r.u8()?;
        if version != VERSION_1 {
            return Err(ParseError::Malformed("HSRP: unsupported version"));
        }
        let opcode: u8 = r.u8()?;
        let state: u8 = r.u8()?;
        let hellotime: u8 = r.u8()?;
        let holdtime: u8 = r.u8()?;
        let priority: u8 = r.u8()?;
        let group: u8 = r.u8()?;
        let _reserved: u8 = r.u8()?;
        let auth_data = r.take(8)?;
        let virtual_ip = r.take(4)?;

        let mut fields = FieldMap::new();
        if ctx.keys() {
            fields.insert(GROUP, Value::U64(group as u64));
        }
        if ctx.structural() {
            fields.insert(VERSION, Value::U64(version as u64));
            fields.insert(OPCODE, Value::U64(opcode as u64));
            fields.insert(STATE, Value::U64(state as u64));
            fields.insert(PRIORITY, Value::U64(priority as u64));
            fields.insert(HELLOTIME, Value::U64(hellotime as u64));
            fields.insert(HOLDTIME, Value::U64(holdtime as u64));
        }
        if ctx.full() {
            fields.insert(VIRTUAL_IP, Value::from(virtual_ip));
            fields.insert(AUTH_DATA, Value::from(auth_data));
        }
        Ok(ParsedLayer { header_len: HEADER_LEN, fields, hint: Hint::Terminal })
    }

    fn claims(&self) -> (r: &'static [RouteId]) {
        &[RouteId::UdpPort(1985)]
    }

    fn stream_identity(&self) -> (r: Option<StreamIdentity>) {
        identity::conversation(
            &[KeyField { a: GROUP, b: None }],
            &[
                RollupSpec { field: STATE, kind: RollupKind::Accumulate },
                RollupSpec { field: PRIORITY, kind: RollupKind::Accumulate },
            ],
        )
    }

    fn condense(&self) -> (r: Option<CondenseSpec>) {
        None
    }

    fn has_probe(&self) -> (r: bool) {
        false
    }

    fn probe(&self, bytes: &[u8], ctx: &ParseCtx) -> (r: Option<Confidence>) {
        None
    }

    fn expected_predecessors(&self) -> (r: &'static [ProtocolName]) {
        &[]
    }
}

} // verus!

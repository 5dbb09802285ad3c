//! L2TPv3 (RFC 3931): the data messages of a pseudowire. Over UDP a leading word
//! says whether the message is control or data and which version it is; directly
//! over IP there are data messages only and no such word. Control messages are
//! identified and not read further. Cookies cannot be seen from the wire and are
//! taken to be absent; the payload is taken to be an Ethernet frame (RFC 4719).
use vstd::prelude::*;

use crate::bytes::{self, ByteReader, ParseError};
use crate::identity::{self, CondenseSpec, Identity, KeyField, StreamIdentity};
use crate::layer::{Confidence, Context, Hint, LayerPlugin, ParseCtx, Parsed, ParsedLayer, RouteId};
use crate::value::{FieldMap, FieldName, Fields, ProtocolName, Value, ValueView};

verus! {

pub const T_BIT: FieldName = "t_bit";

pub const SESSION_ID: FieldName = "session_id";

pub const CONTROL_CONNECTION_ID: FieldName = "control_connection_id";

pub const L2TPV3_VERSION: u32 = 3;

/// Set in the leading word of a control message.
pub const CONTROL_FLAG: u32 = 0x8000_0000;

pub open spec fn over_udp(ctx: Context) -> bool {
    ctx.follows("udp"@)
}

pub open spec fn is_control(b: Seq<u8>, ctx: Context) -> bool {
    over_udp(ctx) && bytes::be32(b, 0) & CONTROL_FLAG != 0
}

/// Where the session id of a data message stands.
pub open spec fn session_at(ctx: Context) -> int {
    if over_udp(ctx) {
        4
    } else {
        0
    }
}

pub open spec fn control_fields(b: Seq<u8>, ctx: Context) -> Fields {
    let f = Map::<Seq<char>, ValueView>::empty();
    if ctx.structural() {
        f.insert(T_BIT@, ValueView::Bool(true)).insert(
            CONTROL_CONNECTION_ID@,
            ValueView::U64(bytes::be32(b, 4) as u64),
        )
    } else {
        f
    }
}

pub open spec fn data_fields(b: Seq<u8>, ctx: Context) -> Fields {
    let f = Map::<Seq<char>, ValueView>::empty();
    let f = if ctx.keys() {
        f.insert(SESSION_ID@, ValueView::U64(bytes::be32(b, session_at(ctx)) as u64))
    } else {
        f
    };
    if ctx.structural() {
        f.insert(T_BIT@, ValueView::Bool(false))
    } else {
        f
    }
}

/// The message at the start of `b`.
pub open spec fn message(b: Seq<u8>, ctx: Context) -> Result<Parsed, ParseError> {
    if over_udp(ctx) && b.len() < 4 {
        Err(bytes::short(b, 0, 4))
    } else if over_udp(ctx) && (bytes::be32(b, 0) >> 16) & 0x0F != L2TPV3_VERSION {
        Err(ParseError::Malformed("L2TPv3: unsupported Ver"))
    } else if is_control(b, ctx) {
        if b.len() < 12 {
            Err(bytes::short(b, b.len() - b.len() % 4, 4))
        } else {
            Ok(Parsed { header_len: 12, fields: control_fields(b, ctx), hint: Hint::Terminal })
        }
    } else if b.len() < session_at(ctx) + 4 {
        Err(bytes::short(b, session_at(ctx), 4))
    } else {
        Ok(
            Parsed {
                header_len: session_at(ctx) + 4,
                fields: data_fields(b, ctx),
                hint: Hint::ByProtocol("ethernet"),
            },
        )
    }
}

pub struct L2tpv3;

impl LayerPlugin for L2tpv3 {
    open spec fn spec_parse(&self, bytes: Seq<u8>, ctx: Context) -> Result<Parsed, ParseError> {
        message(bytes, ctx)
    }

    open spec fn spec_name(&self) -> Seq<char> {
        "l2tpv3"@
    }

    open spec fn spec_claims(&self) -> Seq<RouteId> {
        seq![RouteId::UdpPort(1701), RouteId::IpProtocol(115)]
    }

    open spec fn spec_identity(&self) -> Option<Identity> {
        identity::conversation_of(
            seq![KeyField { a: SESSION_ID, b: None }],
            Seq::empty(),
        )
    }

    open spec fn spec_condense(&self) -> Option<CondenseSpec> {
        None
    }

    open spec fn spec_has_probe(&self) -> bool {
        false
    }

    open spec fn spec_probe(&self, bytes: Seq<u8>, ctx: Context) -> Option<u8> {
        None
    }

    open spec fn spec_predecessors(&self) -> Seq<ProtocolName> {
        Seq::empty()
    }

    fn name(&self) -> (r: ProtocolName) {
        "l2tpv3"
    }

    fn parse(&self, bytes: &[u8], ctx: &ParseCtx) -> (r: Result<ParsedLayer, ParseError>) {
        let over_udp = ctx.follows("udp");
        let mut r = ByteReader::new(bytes);
        let mut control = false;
        if over_udp {
            let word: u32 = r.u32_be()?;
            if (word >> 16) & 0x0F != L2TPV3_VERSION {
                return Err(ParseError::Malformed("L2TPv3: unsupported Ver"));
            }
            control = word & CONTROL_FLAG != 0;
        }
        let mut fields = FieldMap::new();
        if control {
            let control_connection_id: u32 = r.u32_be()?;
            let _sequence_numbers = r.take(4)?;
            if ctx.structural() {
                fields.insert(T_BIT, Value::Bool(true));
                fields.insert(CONTROL_CONNECTION_ID, Value::U64(control_connection_id as u64));
            }
            Ok(ParsedLayer { header_len: r.pos, fields, hint: Hint::Terminal })
        } else {
            let session_id: u32 = r.u32_be()?;
            if ctx.keys() {
                fields.insert(SESSION_ID, Value::U64(session_id as u64));
            }
            if ctx.structural() {
                fields.insert(T_BIT, Value::Bool(false));
            }
            Ok(ParsedLayer { header_len: r.pos, fields, hint: Hint::ByProtocol("ethernet") })
        }
    }

    fn claims(&self) -> (r: &'static [RouteId]) {
        &[RouteId::UdpPort(1701), RouteId::IpProtocol(115)]
    }

    fn stream_identity(&self) -> (r: Option<StreamIdentity>) {
        identity::conversation(
            &[KeyField { a: SESSION_ID, b: None }],
            &[],
        )
    }

    fn condense(&self) -> (r: Option<CondenseSpec>) {
        None
    }

    fn has_probe(&self) -> (r: bool) {
        false
    }

    fn probe(&self, bytes: &[u8], ctx: &ParseCtx) -> (r: Option<Confidence>) {
        None
    }

    fn expected_predecessors(&self) -> (r: &'static [ProtocolName]) {
        &[]
    }
}

} // verus!

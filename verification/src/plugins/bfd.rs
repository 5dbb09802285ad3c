//! BFD (RFC 5880), control packets of single-hop and multihop sessions. A session is
//! its pair of discriminators, which change places with the direction. The length
//! field covers the authentication section, which is consumed unread.
use vstd::prelude::*;

use crate::bytes::{self, ByteReader, ParseError};
use crate::identity::{
    self, CondenseSpec, Identity, KeyField, RollupKind, RollupSpec, StreamIdentity,
};
use crate::layer::{Confidence, Context, Hint, LayerPlugin, ParseCtx, Parsed, ParsedLayer, RouteId};
use crate::value::{FieldMap, FieldName, Fields, ProtocolName, Value, ValueView};

verus! {

pub const MY_DISCRIMINATOR: FieldName = "my_discriminator";

pub const YOUR_DISCRIMINATOR: FieldName = "your_discriminator";

pub const VERSION: FieldName = "version";

pub const DIAG: FieldName = "diag";

pub const STATE: FieldName = "state";

pub const FLAGS: FieldName = "flags";

pub const DETECT_MULT: FieldName = "detect_mult";

pub const LENGTH: FieldName = "length";

pub const DESIRED_MIN_TX: FieldName = "desired_min_tx";

pub const REQUIRED_MIN_RX: FieldName = "required_min_rx";

pub const REQUIRED_MIN_ECHO_RX: FieldName = "required_min_echo_rx";

pub const MANDATORY_LEN: usize = 24;

/// Set when an authentication section is present.
pub const A_BIT: u8 = 0x04;

/// The smallest length the packet may declare.
pub open spec fn min_length(b: Seq<u8>) -> int {
    if b[1] & 0x3F & A_BIT != 0 {
        MANDATORY_LEN + 2
    } else {
        MANDATORY_LEN as int
    }
}

pub open spec fn fields(b: Seq<u8>, ctx: Context) -> Fields {
    let f = Map::<Seq<char>, ValueView>::empty();
    let f = if ctx.keys() {
        f
            .insert(MY_DISCRIMINATOR@, ValueView::U64(bytes::be32(b, 4) as u64))
            .insert(YOUR_DISCRIMINATOR@, ValueView::U64(bytes::be32(b, 8) as u64))
    } else {
        f
    };
    let f = if ctx.structural() {
        f
            .insert(VERSION@, ValueView::U64((b[0] >> 5) as u64))
            .insert(DIAG@, ValueView::U64((b[0] & 0x1F) as u64))
            .insert(STATE@, ValueView::U64((b[1] >> 6) as u64))
            .insert(FLAGS@, ValueView::U64((b[1] & 0x3F) as u64))
            .insert(DETECT_MULT@, ValueView::U64(b[2] as u64))
            .insert(LENGTH@, ValueView::U64(b[3] as u64))
    } else {
        f
    };
    if ctx.full() {
        f
            .insert(DESIRED_MIN_TX@, ValueView::U64(bytes::be32(b, 12) as u64))
            .insert(REQUIRED_MIN_RX@, ValueView::U64(bytes::be32(b, 16) as u64))
            .insert(REQUIRED_MIN_ECHO_RX@, ValueView::U64(bytes::be32(b, 20) as u64))
    } else {
        f
    }
}

/// The packet at the start of `b`.
pub open spec fn message(b: Seq<u8>, ctx: Context) -> Result<Parsed, ParseError> {
    if b.len() < 1 {
        Err(bytes::short(b, 0, 1))
    } else if b[0] >> 5 != 1 {
        Err(ParseError::Malformed("BFD: version is not 1"))
    } else if b.len() < 3 {
        Err(bytes::short(b, b.len() as int, 1))
    } else if b[2] == 0 {
        Err(ParseError::Malformed("BFD: Detect Mult is zero"))
    } else if b.len() < 4 {
        Err(bytes::short(b, 3, 1))
    } else if b[3] < min_length(b) {
        Err(ParseError::Malformed("BFD: length below mandatory section"))
    } else if b.len() < 8 {
        Err(bytes::short(b, 4, 4))
    } else if bytes::be32(b, 4) == 0 {
        Err(ParseError::Malformed("BFD: My Discriminator is zero"))
    } else if b.len() < 24 {
        Err(bytes::short(b, b.len() - b.len() % 4, 4))
    } else if b.len() < b[3] {
        Err(bytes::short(b, 24, b[3] - 24))
    } else {
        Ok(Parsed { header_len: b[3] as int, fields: fields(b, ctx), hint: Hint::Terminal })
    }
}

pub struct Bfd;

impl LayerPlugin for Bfd {
    open spec fn spec_parse(&self, bytes: Seq<u8>, ctx: Context) -> Result<Parsed, ParseError> {
        message(bytes, ctx)
    }

    open spec fn spec_name(&self) -> Seq<char> {
        "bfd"@
    }

    open spec fn spec_claims(&self) -> Seq<RouteId> {
        seq![RouteId::UdpPort(3784), RouteId::UdpPort(4784)]
    }

    open spec fn spec_identity(&self) -> Option<Identity> {
        identity::conversation_of(
            seq![KeyField { a: MY_DISCRIMINATOR, b: Some(YOUR_DISCRIMINATOR) }],
            seq![RollupSpec { field: STATE, kind: RollupKind::Accumulate }],
        )
    }

    open spec fn spec_condense(&self) -> Option<CondenseSpec> {
        None
    }

    open spec fn spec_has_probe(&self) -> bool {
        false
    }

    open spec fn spec_probe(&self, bytes: Seq<u8>, ctx: Context) -> Option<u8> {
        None
    }

    open spec fn spec_predecessors(&self) -> Seq<ProtocolName> {
        Seq::empty()
    }

    fn name(&self) -> (r: ProtocolName) {
        "bfd"
    }

    fn parse(&self, bytes: &[u8], ctx: &ParseCtx) -> (r: Result<ParsedLayer, ParseError>) {
        let mut r = ByteReader::new(bytes);
        let vers_diag: u8 = r.u8()?;
        let version: u8 = vers_diag >> 5;
        if version != 1 {
            return Err(ParseError::Malformed("BFD: version is not 1"));
        }
        let state_flags: u8 = r.u8()?;
        let flags: u8 = state_flags & 0x3F;
        let detect_mult: u8 = r.u8()?;
        if detect_mult == 0 {
            return Err(ParseError::Malformed("BFD: Detect Mult is zero"));
        }
        let length: usize = r.u8()? as usize;
        let min_len: usize = if flags & A_BIT != 0 {
            MANDATORY_LEN + 2
        } else {
            MANDATORY_LEN
        };
        if length < min_len {
            return Err(ParseError::Malformed("BFD: length below mandatory section"));
        }
        let my_discriminator: u32 = r.u32_be()?;
        if my_discriminator == 0 {
            return Err(ParseError::Malformed("BFD: My Discriminator is zero"));
        }
        let your_discriminator: u32 = r.u32_be()?;
        let desired_min_tx: u32 = r.u32_be()?;
        let required_min_rx: u32 = r.u32_be()?;
        let required_min_echo_rx: u32 = r.u32_be()?;
        let _authentication = r.take(length - MANDATORY_LEN)?;

        let mut fields = FieldMap::new();
        if ctx.keys() {
            fields.insert(MY_DISCRIMINATOR, Value::U64(my_discriminator as u64));
            fields.insert(YOUR_DISCRIMINATOR, Value::U64(your_discriminator as u64));
        }
        if ctx.structural() {
            fields.insert(VERSION, Value::U64(version as u64));
            fields.insert(DIAG, Value::U64((vers_diag & 0x1F) as u64));
            fields.insert(STATE, Value::U64((state_flags >> 6) as u64));
            fields.insert(FLAGS, Value::U64(flags as u64));
            fields.insert(DETECT_MULT, Value::U64(detect_mult as u64));
            fields.insert(LENGTH, Value::U64(length as u64));
        }
        if ctx.full() {
            fields.insert(DESIRED_MIN_TX, Value::U64(desired_min_tx as u64));
            fields.insert(REQUIRED_MIN_RX, Value::U64(required_min_rx as u64));
            fields.insert(REQUIRED_MIN_ECHO_RX, Value::U64(required_min_echo_rx as u64));
        }
        Ok(ParsedLayer { header_len: length, fields, hint: Hint::Terminal })
    }

    fn claims(&self) -> (r: &'static [RouteId]) {
        &[RouteId::UdpPort(3784), RouteId::UdpPort(4784)]
    }

    fn stream_identity(&self) -> (r: Option<StreamIdentity>) {
        identity::conversation(
            &[KeyField { a: MY_DISCRIMINATOR, b: Some(YOUR_DISCRIMINATOR) }],
            &[RollupSpec { field: STATE, kind: RollupKind::Accumulate }],
        )
    }

    fn condense(&self) -> (r: Option<CondenseSpec>) {
        None
    }

    fn has_probe(&self) -> (r: bool) {
        false
    }

    fn probe(&self, bytes: &[u8], ctx: &ParseCtx) -> (r: Option<Confidence>) {
        None
    }

    fn expected_predecessors(&self) -> (r: &'static [ProtocolName]) {
        &[]
    }
}

} // verus!

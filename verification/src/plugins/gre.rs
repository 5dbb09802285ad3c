//! GRE (RFC 2784, RFC 2890): a tunnel whose header names the next protocol by its
//! EtherType. One stream per tunnel key; a tunnel without one has key zero, since
//! nothing tells two such tunnels between the same addresses apart.
use vstd::prelude::*;

use crate::bytes::{self, ByteReader, ParseError};
use crate::identity::{self, CondenseSpec, Identity, KeyField, StreamIdentity};
use crate::layer::{Confidence, Context, Hint, LayerPlugin, ParseCtx, Parsed, ParsedLayer, RouteId};
use crate::value::{FieldMap, FieldName, Fields, ProtocolName, Value, ValueView};

verus! {

pub const KEY_FIELD: FieldName = "key";

pub const FLAGS: FieldName = "flags";

pub const PROTOCOL: FieldName = "protocol";

pub const VERSION: FieldName = "version";

pub const CHECKSUM: FieldName = "checksum";

pub const SEQUENCE: FieldName = "sequence";

pub const C_BIT: u16 = 0x8000;

pub const K_BIT: u16 = 0x2000;

pub const S_BIT: u16 = 0x1000;

/// Whether the word that `bit` announces is present.
pub open spec fn has(b: Seq<u8>, bit: u16) -> bool {
    bytes::be16(b, 0) & bit != 0
}

/// Where the key stands, if it is present.
pub open spec fn key_at(b: Seq<u8>) -> int {
    if has(b, C_BIT) {
        8
    } else {
        4
    }
}

/// Where the sequence number stands, if it is present.
pub open spec fn sequence_at(b: Seq<u8>) -> int {
    if has(b, K_BIT) {
        key_at(b) + 4
    } else {
        key_at(b)
    }
}

pub open spec fn header_end(b: Seq<u8>) -> int {
    if has(b, S_BIT) {
        sequence_at(b) + 4
    } else {
        sequence_at(b)
    }
}

pub open spec fn tunnel_key(b: Seq<u8>) -> u32 {
    if has(b, K_BIT) {
        bytes::be32(b, key_at(b))
    } else {
        0
    }
}

pub open spec fn fields(b: Seq<u8>, ctx: Context) -> Fields {
    let f = Map::<Seq<char>, ValueView>::empty();
    let f = if ctx.keys() {
        f.insert(KEY_FIELD@, ValueView::U64(tunnel_key(b) as u64))
    } else {
        f
    };
    let f = if ctx.structural() {
        f
            .insert(FLAGS@, ValueView::U64((bytes::be16(b, 0) >> 12) as u64))
            .insert(PROTOCOL@, ValueView::U64(bytes::be16(b, 2) as u64))
            .insert(VERSION@, ValueView::U64((bytes::be16(b, 0) & 0x0007) as u64))
    } else {
        f
    };
    let f = if ctx.full() && has(b, C_BIT) {
        f.insert(CHECKSUM@, ValueView::U64(bytes::be16(b, 4) as u64))
    } else {
        f
    };
    if ctx.full() && has(b, S_BIT) {
        f.insert(SEQUENCE@, ValueView::U64(bytes::be32(b, sequence_at(b)) as u64))
    } else {
        f
    }
}

/// The header at the start of `b`.
pub open spec fn message(b: Seq<u8>, ctx: Context) -> Result<Parsed, ParseError> {
    if b.len() < 2 {
        Err(bytes::short(b, 0, 2))
    } else if bytes::be16(b, 0) & 0x0007 != 0 {
        Err(ParseError::Malformed("GRE version is not 0"))
    } else if b.len() < 4 {
        Err(bytes::short(b, 2, 2))
    } else if has(b, C_BIT) && b.len() < 8 {
        Err(bytes::short(b, b.len() - b.len() % 2, 2))
    } else if has(b, K_BIT) && b.len() < key_at(b) + 4 {
        Err(bytes::short(b, key_at(b), 4))
    } else if has(b, S_BIT) && b.len() < sequence_at(b) + 4 {
        Err(bytes::short(b, sequence_at(b), 4))
    } else {
        Ok(
            Parsed {
                header_len: header_end(b),
                fields: fields(b, ctx),
                hint: Hint::Route(RouteId::EtherType(bytes::be16(b, 2))),
            },
        )
    }
}

pub struct Gre;

impl LayerPlugin for Gre {
    open spec fn spec_parse(&self, bytes: Seq<u8>, ctx: Context) -> Result<Parsed, ParseError> {
        message(bytes, ctx)
    }

    open spec fn spec_name(&self) -> Seq<char> {
        "gre"@
    }

    open spec fn spec_claims(&self) -> Seq<RouteId> {
        seq![RouteId::IpProtocol(47)]
    }

    open spec fn spec_identity(&self) -> Option<Identity> {
        identity::conversation_of(
            seq![KeyField { a: KEY_FIELD, b: None }],
            Seq::empty(),
        )
    }

    open spec fn spec_condense(&self) -> Option<CondenseSpec> {
        None
    }

    open spec fn spec_has_probe(&self) -> bool {
        false
    }

    open spec fn spec_probe(&self, bytes: Seq<u8>, ctx: Context) -> Option<u8> {
        None
    }

    open spec fn spec_predecessors(&self) -> Seq<ProtocolName> {
        Seq::empty()
    }

    fn name(&self) -> (r: ProtocolName) {
        "gre"
    }

    fn parse(&self, bytes: &[u8], ctx: &ParseCtx) -> (r: Result<ParsedLayer, ParseError>) {
        let mut r = ByteReader::new(bytes);
        let flags_version: u16 = r.u16_be()?;
        let version: u16 = flags_version & 0x0007;
        if version != 0 {
            return Err(ParseError::Malformed("GRE version is not 0"));
        }
        let protocol: u16 = r.u16_be()?;
        let mut checksum: Option<u16> = None;
        if flags_version & C_BIT != 0 {
            checksum = Some(r.u16_be()?);
            let _reserved: u16 = r.u16_be()?;
        }
        let mut key: u32 = 0;
        if flags_version & K_BIT != 0 {
            key = r.u32_be()?;
        }
        let mut sequence: Option<u32> = None;
        if flags_version & S_BIT != 0 {
            sequence = Some(r.u32_be()?);
        }

        let mut fields = FieldMap::new();
        if ctx.keys() {
            fields.insert(KEY_FIELD, Value::U64(key as u64));
        }
        if ctx.structural() {
            fields.insert(FLAGS, Value::U64((flags_version >> 12) as u64));
            fields.insert(PROTOCOL, Value::U64(protocol as u64));
            fields.insert(VERSION, Value::U64(version as u64));
        }
        if ctx.full() {
            if let Some(c) = checksum {
                fields.insert(CHECKSUM, Value::U64(c as u64));
            }
            if let Some(s) = sequence {
                fields.insert(SEQUENCE, Value::U64(s as u64));
            }
        }
        Ok(ParsedLayer { header_len: r.pos, fields, hint: Hint::Route(RouteId::EtherType(protocol)) })
    }

    fn claims(&self) -> (r: &'static [RouteId]) {
        &[RouteId::IpProtocol(47)]
    }

    fn stream_identity(&self) -> (r: Option<StreamIdentity>) {
        identity::conversation(
            &[KeyField { a: KEY_FIELD, b: None }],
            &[],
        )
    }

    fn condense(&self) -> (r: Option<CondenseSpec>) {
        None
    }

    fn has_probe(&self) -> (r: bool) {
        false
    }

    fn probe(&self, bytes: &[u8], ctx: &ParseCtx) -> (r: Option<Confidence>) {
        None
    }

    fn expected_predecessors(&self) -> (r: &'static [ProtocolName]) {
        &[]
    }
}

} // verus!

//! IPv6 (RFC 8200): the fixed 40-byte header and the extension headers behind it,
//! which belong to this layer. A chain of more than eight is malformed. As with
//! IPv4, nothing is looked for behind a fragment that is not the first.
use vstd::prelude::*;

use crate::bytes::{self, ByteReader, ParseError};
use crate::identity::{
    self, CondenseSpec, Identity, KeyField, RollupKind, RollupSpec, StreamIdentity,
};
use crate::layer::{Confidence, Context, Hint, LayerPlugin, ParseCtx, Parsed, ParsedLayer, RouteId};
use crate::value::{FieldMap, FieldName, Fields, ProtocolName, Value, ValueView};

verus! {

pub const SRC_ADDR: FieldName = "src_addr";

pub const DST_ADDR: FieldName = "dst_addr";

pub const NEXT_HEADER: FieldName = "next_header";

pub const HOP_LIMIT: FieldName = "hop_limit";

pub const PAYLOAD_LEN: FieldName = "payload_len";

pub const TRAFFIC_CLASS: FieldName = "traffic_class";

pub const FLOW_LABEL: FieldName = "flow_label";

pub const MAX_EXT_HEADERS: usize = 8;

pub const FRAGMENT: u8 = 44;

/// Hop-by-hop options, routing, fragment and destination options.
pub open spec fn is_extension(next: u8) -> bool {
    next == 0 || next == 43 || next == FRAGMENT || next == 60
}

/// Where the extension headers end, what follows them and the offset of the
/// fragment, if they make the packet one.
pub struct Chain {
    pub end: int,
    pub next: u8,
    pub fragment_offset: u16,
}

/// The extension headers from `p` on, `count` headers in: `next` says what
/// stands at `p`.
pub open spec fn chain(b: Seq<u8>, p: int, next: u8, offset: u16, count: int) -> Result<
    Chain,
    ParseError,
>
    decreases MAX_EXT_HEADERS + 1 - count,
{
    if !is_extension(next) {
        Ok(Chain { end: p, next, fragment_offset: offset })
    } else if count + 1 > MAX_EXT_HEADERS {
        Err(ParseError::Malformed("extension header chain too long"))
    } else if b.len() < p + 2 {
        Err(bytes::short(b, b.len() as int, 1))
    } else if next == FRAGMENT {
        if b.len() < p + 4 {
            Err(bytes::short(b, p + 2, 2))
        } else if b.len() < p + 8 {
            Err(bytes::short(b, p + 4, 4))
        } else {
            chain(b, p + 8, b[p], bytes::be16(b, p + 2) >> 3, count + 1)
        }
    } else {
        let len = (b[p + 1] + 1) * 8;
        if b.len() < p + len {
            Err(bytes::short(b, p + 2, len - 2))
        } else {
            chain(b, p + len, b[p], offset, count + 1)
        }
    }
}

pub open spec fn fields(b: Seq<u8>, next: u8, ctx: Context) -> Fields {
    let f = Map::<Seq<char>, ValueView>::empty();
    let f = if ctx.keys() {
        f
            .insert(SRC_ADDR@, ValueView::Bytes(b.subrange(8, 24)))
            .insert(DST_ADDR@, ValueView::Bytes(b.subrange(24, 40)))
    } else {
        f
    };
    let f = if ctx.structural() {
        f
            .insert(NEXT_HEADER@, ValueView::U64(next as u64))
            .insert(HOP_LIMIT@, ValueView::U64(b[7] as u64))
            .insert(PAYLOAD_LEN@, ValueView::U64(bytes::be16(b, 4) as u64))
    } else {
        f
    };
    if ctx.full() {
        f
            .insert(TRAFFIC_CLASS@, ValueView::U64(((bytes::be32(b, 0) >> 20) & 0xFF) as u64))
            .insert(FLOW_LABEL@, ValueView::U64((bytes::be32(b, 0) & 0xF_FFFF) as u64))
    } else {
        f
    }
}

/// The header at the start of `b`.
pub open spec fn message(b: Seq<u8>, ctx: Context) -> Result<Parsed, ParseError> {
    if b.len() < 4 {
        Err(bytes::short(b, 0, 4))
    } else if bytes::be32(b, 0) >> 28 != 6 {
        Err(ParseError::Malformed("version nibble is not 6"))
    } else if b.len() < 6 {
        Err(bytes::short(b, 4, 2))
    } else if b.len() < 8 {
        Err(bytes::short(b, b.len() as int, 1))
    } else if b.len() < 24 {
        Err(bytes::short(b, 8, 16))
    } else if b.len() < 40 {
        Err(bytes::short(b, 24, 16))
    } else {
        match chain(b, 40, b[6], 0, 0) {
            Err(e) => Err(e),
            Ok(c) => Ok(
                Parsed {
                    header_len: c.end,
                    fields: fields(b, c.next, ctx),
                    hint: if c.fragment_offset > 0 {
                        Hint::Terminal
                    } else {
                        Hint::Route(RouteId::IpProtocol(c.next))
                    },
                },
            ),
        }
    }
}

fn skip_extensions(r: &mut ByteReader, first: u8) -> (res: Result<(u8, u16), ParseError>)
    requires
        old(r).wf(),
    ensures
        final(r).wf(),
        final(r).data == old(r).data,
        match chain(old(r).data@, old(r).pos as int, first, 0, 0) {
            Ok(c) => res is Ok && final(r).pos == c.end && res->Ok_0.0 == c.next && res->Ok_0.1
                == c.fragment_offset,
            Err(e) => res is Err && res->Err_0 == e,
        },
{
    let mut next: u8 = first;
    let mut offset: u16 = 0;
    let mut count: usize = 0;
    while next == 0 || next == 43 || next == FRAGMENT || next == 60
        invariant
            r.wf(),
            r.data == old(r).data,
            count <= MAX_EXT_HEADERS,
            chain(r.data@, old(r).pos as int, first, 0, 0) == chain(
                r.data@,
                r.pos as int,
                next,
                offset,
                count as int,
            ),
        decreases MAX_EXT_HEADERS + 1 - count,
    {
        count = count + 1;
        if count > MAX_EXT_HEADERS {
            return Err(ParseError::Malformed("extension header chain too long"));
        }
        let inner_next: u8 = r.u8()?;
        let len_byte: u8 = r.u8()?;
        if next == FRAGMENT {
            let offset_flags: u16 = r.u16_be()?;
            let _identification: u32 = r.u32_be()?;
            offset = offset_flags >> 3;
        } else {
            let len: usize = (len_byte as usize + 1) * 8;
            let _body = r.take(len - 2)?;
        }
        next = inner_next;
    }
    Ok((next, offset))
}

pub struct Ipv6;

impl LayerPlugin for Ipv6 {
    open spec fn spec_parse(&self, bytes: Seq<u8>, ctx: Context) -> Result<Parsed, ParseError> {
        message(bytes, ctx)
    }

    open spec fn spec_name(&self) -> Seq<char> {
        "ipv6"@
    }

    open spec fn spec_claims(&self) -> Seq<RouteId> {
        seq![RouteId::EtherType(0x86DD), RouteId::IpProtocol(41)]
    }

    open spec fn spec_identity(&self) -> Option<Identity> {
        identity::conversation_of(
            seq![KeyField { a: SRC_ADDR, b: Some(DST_ADDR) }],
            seq![RollupSpec { field: NEXT_HEADER, kind: RollupKind::Accumulate }],
        )
    }

    open spec fn spec_condense(&self) -> Option<CondenseSpec> {
        None
    }

    open spec fn spec_has_probe(&self) -> bool {
        true
    }

    /// A complete fixed header of the right version whose payload fits the
    /// bytes.
    open spec fn spec_probe(&self, bytes: Seq<u8>, ctx: Context) -> Option<u8> {
        if bytes.len() >= 40 && bytes[0] >> 4 == 6 && 40 + bytes::be16(bytes, 4) <= bytes.len() {
            Some(75u8)
        } else {
            None
        }
    }

    open spec fn spec_predecessors(&self) -> Seq<ProtocolName> {
        Seq::empty()
    }

    fn name(&self) -> (r: ProtocolName) {
        "ipv6"
    }

    fn parse(&self, bytes: &[u8], ctx: &ParseCtx) -> (r: Result<ParsedLayer, ParseError>) {
        let mut r = ByteReader::new(bytes);
        let ver_tc_fl: u32 = r.u32_be()?;
        if ver_tc_fl >> 28 != 6 {
            return Err(ParseError::Malformed("version nibble is not 6"));
        }
        let payload_len: u16 = r.u16_be()?;
        let first: u8 = r.u8()?;
        let hop_limit: u8 = r.u8()?;
        let src = r.take(16)?;
        let dst = r.take(16)?;
        let (next_header, fragment_offset) = skip_extensions(&mut r, first)?;

        let mut fields = FieldMap::new();
        if ctx.keys() {
            fields.insert(SRC_ADDR, Value::from(src));
            fields.insert(DST_ADDR, Value::from(dst));
        }
        if ctx.structural() {
            fields.insert(NEXT_HEADER, Value::U64(next_header as u64));
            fields.insert(HOP_LIMIT, Value::U64(hop_limit as u64));
            fields.insert(PAYLOAD_LEN, Value::U64(payload_len as u64));
        }
        if ctx.full() {
            fields.insert(TRAFFIC_CLASS, Value::U64(((ver_tc_fl >> 20) & 0xFF) as u64));
            fields.insert(FLOW_LABEL, Value::U64((ver_tc_fl & 0xF_FFFF) as u64));
        }
        let hint = if fragment_offset > 0 {
            Hint::Terminal
        } else {
            Hint::Route(RouteId::IpProtocol(next_header))
        };
        Ok(ParsedLayer { header_len: r.pos, fields, hint })
    }

    fn claims(&self) -> (r: &'static [RouteId]) {
        &[RouteId::EtherType(0x86DD), RouteId::IpProtocol(41)]
    }

    fn stream_identity(&self) -> (r: Option<StreamIdentity>) {
        identity::conversation(
            &[KeyField { a: SRC_ADDR, b: Some(DST_ADDR) }],
            &[RollupSpec { field: NEXT_HEADER, kind: RollupKind::Accumulate }],
        )
    }

    fn condense(&self) -> (r: Option<CondenseSpec>) {
        None
    }

    fn has_probe(&self) -> (r: bool) {
        true
    }

    fn probe(&self, bytes: &[u8], ctx: &ParseCtx) -> (r: Option<Confidence>) {
        if bytes.len() < 40 {
            return None;
        }
        if bytes[0] >> 4 != 6 {
            return None;
        }
        let payload_len: usize = bytes[4] as usize * 0x100 + bytes[5] as usize;
        if 40 + payload_len <= bytes.len() {
            Some(Confidence::new(75))
        } else {
            None
        }
    }

    fn expected_predecessors(&self) -> (r: &'static [ProtocolName]) {
        &[]
    }
}

} // verus!

//! BGP-4 (RFC 4271): the first message of a TCP segment, bounded by its own length
//! field, so that a second message in the same segment stays untouched. OPEN and
//! UPDATE bodies are read; the other types are consumed unread, and so is the
//! 16-byte marker.
//!
//! An UPDATE's next hop is that of its NEXT_HOP attribute or, if that is absent, of
//! MP_REACH_NLRI (RFC 4760), whose malformed value means no next hop and not a
//! declined message.
use vstd::prelude::*;

use crate::bytes::{self, ByteReader, ParseError};
use crate::identity::{
    self, CondenseSpec, Identity, KeyField, RollupKind, RollupSpec, StreamIdentity,
};
use crate::layer::{Confidence, Context, Hint, LayerPlugin, ParseCtx, Parsed, ParsedLayer, RouteId};
use crate::value;
use crate::value::{FieldMap, FieldName, Fields, ProtocolName, Value, ValueView};

verus! {

pub const APP: FieldName = "app";

pub const MSG_TYPE: FieldName = "msg_type";

pub const LENGTH: FieldName = "length";

pub const MY_AS: FieldName = "my_as";

pub const HOLD_TIME: FieldName = "hold_time";

pub const BGP_IDENTIFIER: FieldName = "bgp_identifier";

pub const WITHDRAWN_ROUTES: FieldName = "withdrawn_routes";

pub const NLRI: FieldName = "nlri";

pub const NEXT_HOP: FieldName = "next_hop";

pub const HEADER_LEN: usize = 19;

/// No BGP message is longer.
pub const MAX_LENGTH: usize = 4096;

pub const TYPE_OPEN: u8 = 1;

pub const TYPE_UPDATE: u8 = 2;

pub const BGP_VERSION_4: u8 = 4;

/// Set in an attribute's flags when its length takes two bytes.
pub const ATTR_EXTENDED_LENGTH: u8 = 0x10;

pub const ATTR_NEXT_HOP: u8 = 3;

pub const ATTR_MP_REACH_NLRI: u8 = 14;

/// The bytes that a prefix of `bits` bits takes.
pub open spec fn prefix_bytes(bits: u8) -> int {
    (bits + 7) / 8
}

/// The prefixes from `p` on, after `found`: each its length in bits and its
/// significant bytes, kept as they are on the wire.
pub open spec fn prefixes(b: Seq<u8>, p: int, found: Seq<ValueView>) -> Result<
    Seq<ValueView>,
    ParseError,
>
    decreases b.len() - p,
{
    if p < 0 || p >= b.len() {
        Ok(found)
    } else if prefix_bytes(b[p]) > 4 {
        Err(ParseError::Malformed("BGP: prefix length exceeds 32 bits"))
    } else if b.len() < p + 1 + prefix_bytes(b[p]) {
        Err(bytes::short(b, p + 1, prefix_bytes(b[p])))
    } else {
        prefixes(
            b,
            p + 1 + prefix_bytes(b[p]),
            found.push(ValueView::Bytes(b.subrange(p, p + 1 + prefix_bytes(b[p])))),
        )
    }
}

/// The next hop in an MP_REACH_NLRI value, if it is well-formed.
pub open spec fn mp_next_hop(v: Seq<u8>) -> Option<Seq<u8>> {
    if v.len() >= 4 && v.len() >= 4 + v[3] {
        Some(v.subrange(4, 4 + v[3]))
    } else {
        None
    }
}

/// The first next hop of each of the two attributes that can hold one.
pub struct NextHops {
    pub classic: Option<Seq<u8>>,
    pub mp: Option<Seq<u8>>,
}

pub open spec fn with_attribute(h: NextHops, type_code: u8, value: Seq<u8>) -> NextHops {
    if type_code == ATTR_NEXT_HOP && h.classic is None {
        NextHops { classic: Some(value), ..h }
    } else if type_code == ATTR_MP_REACH_NLRI && h.mp is None {
        NextHops { mp: mp_next_hop(value), ..h }
    } else {
        h
    }
}

/// The attributes from `p` on, after `h`: flags, type, a length of one or two
/// bytes, value.
pub open spec fn attributes(b: Seq<u8>, p: int, h: NextHops) -> Result<NextHops, ParseError>
    decreases b.len() - p,
{
    if p < 0 || p >= b.len() {
        Ok(h)
    } else if b.len() < p + 2 {
        Err(bytes::short(b, p + 1, 1))
    } else if b[p] & ATTR_EXTENDED_LENGTH != 0 {
        if b.len() < p + 4 {
            Err(bytes::short(b, p + 2, 2))
        } else if b.len() < p + 4 + bytes::be16(b, p + 2) {
            Err(bytes::short(b, p + 4, bytes::be16(b, p + 2) as int))
        } else {
            let end = p + 4 + bytes::be16(b, p + 2);
            attributes(b, end, with_attribute(h, b[p + 1], b.subrange(p + 4, end)))
        }
    } else {
        if b.len() < p + 3 {
            Err(bytes::short(b, p + 2, 1))
        } else if b.len() < p + 3 + b[p + 2] {
            Err(bytes::short(b, p + 3, b[p + 2] as int))
        } else {
            let end = p + 3 + b[p + 2];
            attributes(b, end, with_attribute(h, b[p + 1], b.subrange(p + 3, end)))
        }
    }
}

pub open spec fn no_hops() -> NextHops {
    NextHops { classic: None, mp: None }
}

/// The classic attribute wins.
pub open spec fn next_hop(h: NextHops) -> Option<Seq<u8>> {
    if h.classic is Some {
        h.classic
    } else {
        h.mp
    }
}

/// What an UPDATE announces and withdraws.
pub struct Routes {
    pub withdrawn: Seq<ValueView>,
    pub announced: Seq<ValueView>,
    pub next_hop: Option<Seq<u8>>,
}

pub open spec fn update(body: Seq<u8>) -> Result<Routes, ParseError> {
    let w = bytes::be16(body, 0) as int;
    let a = bytes::be16(body, 2 + w) as int;
    if body.len() < 2 {
        Err(bytes::short(body, 0, 2))
    } else if body.len() < 2 + w {
        Err(bytes::short(body, 2, w))
    } else {
        match prefixes(body.subrange(2, 2 + w), 0, Seq::empty()) {
            Err(e) => Err(e),
            Ok(withdrawn) => if body.len() < 4 + w {
                Err(bytes::short(body, 2 + w, 2))
            } else if body.len() < 4 + w + a {
                Err(bytes::short(body, 4 + w, a))
            } else {
                match attributes(body.subrange(4 + w, 4 + w + a), 0, no_hops()) {
                    Err(e) => Err(e),
                    Ok(h) => match prefixes(
                        body.subrange(4 + w + a, body.len() as int),
                        0,
                        Seq::empty(),
                    ) {
                        Err(e) => Err(e),
                        Ok(announced) => Ok(Routes { withdrawn, announced, next_hop: next_hop(h) }),
                    },
                }
            },
        }
    }
}

/// Why an OPEN body is declined, if it is.
pub open spec fn open_error(body: Seq<u8>) -> Option<ParseError> {
    if body.len() < 1 {
        Some(bytes::short(body, 0, 1))
    } else if body[0] != BGP_VERSION_4 {
        Some(ParseError::Malformed("BGP: unsupported OPEN version"))
    } else if body.len() < 3 {
        Some(bytes::short(body, 1, 2))
    } else if body.len() < 5 {
        Some(bytes::short(body, 3, 2))
    } else if body.len() < 9 {
        Some(bytes::short(body, 5, 4))
    } else if body.len() < 10 {
        Some(bytes::short(body, 9, 1))
    } else if body.len() < 10 + body[9] {
        Some(bytes::short(body, 10, body[9] as int))
    } else {
        None
    }
}

pub open spec fn common_fields(b: Seq<u8>, ctx: Context) -> Fields {
    let f = Map::<Seq<char>, ValueView>::empty();
    let f = if ctx.keys() {
        f.insert(APP@, ValueView::Str("bgp"@))
    } else {
        f
    };
    if ctx.structural() {
        f.insert(MSG_TYPE@, ValueView::U64(b[18] as u64)).insert(
            LENGTH@,
            ValueView::U64(bytes::be16(b, 16) as u64),
        )
    } else {
        f
    }
}

pub open spec fn open_fields(f: Fields, body: Seq<u8>, ctx: Context) -> Fields {
    if ctx.full() {
        f.insert(MY_AS@, ValueView::U64(bytes::be16(body, 1) as u64)).insert(
            HOLD_TIME@,
            ValueView::U64(bytes::be16(body, 3) as u64),
        ).insert(BGP_IDENTIFIER@, ValueView::Bytes(body.subrange(5, 9)))
    } else {
        f
    }
}

pub open spec fn update_fields(f: Fields, routes: Routes, ctx: Context) -> Fields {
    let f = if ctx.full() {
        f.insert(WITHDRAWN_ROUTES@, ValueView::List(routes.withdrawn)).insert(
            NLRI@,
            ValueView::List(routes.announced),
        )
    } else {
        f
    };
    if ctx.full() && routes.next_hop is Some {
        f.insert(NEXT_HOP@, ValueView::Bytes(routes.next_hop->0))
    } else {
        f
    }
}

/// The fields of the message `b`, whose body is `body`.
pub open spec fn fields(b: Seq<u8>, body: Seq<u8>, ctx: Context) -> Result<Fields, ParseError> {
    let common = common_fields(b, ctx);
    if b[18] == TYPE_OPEN {
        match open_error(body) {
            Some(e) => Err(e),
            None => Ok(open_fields(common, body, ctx)),
        }
    } else if b[18] == TYPE_UPDATE {
        match update(body) {
            Err(e) => Err(e),
            Ok(routes) => Ok(update_fields(common, routes, ctx)),
        }
    } else {
        Ok(common)
    }
}

/// The message at the start of `b`.
pub open spec fn message(b: Seq<u8>, ctx: Context) -> Result<Parsed, ParseError> {
    let length = bytes::be16(b, 16) as int;
    if b.len() < 16 {
        Err(bytes::short(b, 0, 16))
    } else if b.len() < 18 {
        Err(bytes::short(b, 16, 2))
    } else if b.len() < 19 {
        Err(bytes::short(b, 18, 1))
    } else if length < HEADER_LEN || length > MAX_LENGTH {
        Err(ParseError::Malformed("BGP: length out of range"))
    } else if b.len() < length {
        Err(bytes::short(b, 19, length - 19))
    } else {
        match fields(b, b.subrange(19, length), ctx) {
            Err(e) => Err(e),
            Ok(f) => Ok(Parsed { header_len: length, fields: f, hint: Hint::Terminal }),
        }
    }
}

fn parse_prefix_list(list: &[u8]) -> (res: Result<Vec<Value>, ParseError>)
    ensures
        match prefixes(list@, 0, Seq::empty()) {
            Ok(found) => res is Ok && value::values_view(res->Ok_0@) == found,
            Err(e) => res is Err && res->Err_0 == e,
        },
{
    let mut r = ByteReader::new(list);
    let mut out: Vec<Value> = Vec::new();
    assert(value::values_view(out@) =~= Seq::empty());
    while r.remaining() > 0
        invariant
            r.wf(),
            r.data@ == list@,
            prefixes(list@, 0, Seq::empty()) == prefixes(
                list@,
                r.pos as int,
                value::values_view(out@),
            ),
        decreases list@.len() - r.pos,
    {
        let start: usize = r.pos;
        let bits: u8 = r.u8()?;
        let len: usize = (bits as usize + 7) / 8;
        if len > 4 {
            return Err(ParseError::Malformed("BGP: prefix length exceeds 32 bits"));
        }
        let _prefix = r.take(len)?;
        let raw = Value::from(vstd::slice::slice_subrange(list, start, r.pos));
        let ghost before = value::values_view(out@);
        out.push(raw);
        assert(value::values_view(out@) =~= before.push(raw@));
    }
    Ok(out)
}

fn mp_reach_next_hop<'a>(v: &'a [u8]) -> (r: Option<&'a [u8]>)
    ensures
        match mp_next_hop(v@) {
            Some(h) => r is Some && r->0@ == h,
            None => r is None,
        },
{
    if v.len() < 4 {
        return None;
    }
    let n: usize = v[3] as usize;
    if v.len() < 4 + n {
        return None;
    }
    Some(vstd::slice::slice_subrange(v, 4, 4 + n))
}

spec fn same_bytes(a: Option<&[u8]>, b: Option<Seq<u8>>) -> bool {
    match (a, b) {
        (Some(a), Some(b)) => a@ == b,
        (None, None) => true,
        _ => false,
    }
}

fn extract_next_hop<'a>(list: &'a [u8]) -> (res: Result<Option<&'a [u8]>, ParseError>)
    ensures
        match attributes(list@, 0, no_hops()) {
            Ok(h) => res is Ok && same_bytes(res->Ok_0, next_hop(h)),
            Err(e) => res is Err && res->Err_0 == e,
        },
{
    let mut r = ByteReader::new(list);
    let mut classic: Option<&'a [u8]> = None;
    let mut mp: Option<&'a [u8]> = None;
    let ghost mut h = no_hops();
    while r.remaining() > 0
        invariant
            r.wf(),
            r.data@ == list@,
            same_bytes(classic, h.classic),
            same_bytes(mp, h.mp),
            attributes(list@, 0, no_hops()) == attributes(list@, r.pos as int, h),
        decreases list@.len() - r.pos,
    {
        let flags: u8 = r.u8()?;
        let type_code: u8 = r.u8()?;
        let len: usize = if flags & ATTR_EXTENDED_LENGTH != 0 {
            r.u16_be()? as usize
        } else {
            r.u8()? as usize
        };
        let value = r.take(len)?;
        if type_code == ATTR_NEXT_HOP && classic.is_none() {
            classic = Some(value);
        } else if type_code == ATTR_MP_REACH_NLRI && mp.is_none() {
            mp = mp_reach_next_hop(value);
        }
        proof {
            h = with_attribute(h, type_code, value@);
        }
    }
    if classic.is_some() {
        Ok(classic)
    } else {
        Ok(mp)
    }
}

struct FoundRoutes<'a> {
    withdrawn: Vec<Value>,
    announced: Vec<Value>,
    next_hop: Option<&'a [u8]>,
}

fn read_update<'a>(body: &'a [u8]) -> (res: Result<FoundRoutes<'a>, ParseError>)
    ensures
        match update(body@) {
            Ok(routes) => res is Ok && value::values_view(res->Ok_0.withdrawn@) == routes.withdrawn
                && value::values_view(res->Ok_0.announced@) == routes.announced && same_bytes(
                res->Ok_0.next_hop,
                routes.next_hop,
            ),
            Err(e) => res is Err && res->Err_0 == e,
        },
{
    let mut r = ByteReader::new(body);
    let withdrawn_len: u16 = r.u16_be()?;
    let withdrawn_bytes = r.take(withdrawn_len as usize)?;
    let withdrawn = parse_prefix_list(withdrawn_bytes)?;
    let attributes_len: u16 = r.u16_be()?;
    let attribute_bytes = r.take(attributes_len as usize)?;
    let next_hop = extract_next_hop(attribute_bytes)?;
    let rest: usize = r.remaining();
    let announced_bytes = r.take(rest)?;
    let announced = parse_prefix_list(announced_bytes)?;
    Ok(FoundRoutes { withdrawn, announced, next_hop })
}

pub struct Bgp;

impl LayerPlugin for Bgp {
    open spec fn spec_parse(&self, bytes: Seq<u8>, ctx: Context) -> Result<Parsed, ParseError> {
        message(bytes, ctx)
    }

    open spec fn spec_name(&self) -> Seq<char> {
        "bgp"@
    }

    open spec fn spec_claims(&self) -> Seq<RouteId> {
        seq![RouteId::TcpPort(179)]
    }

    open spec fn spec_identity(&self) -> Option<Identity> {
        identity::conversation_of(
            seq![KeyField { a: APP, b: None }],
            seq![
                RollupSpec { field: MSG_TYPE, kind: RollupKind::Accumulate },
                RollupSpec { field: MY_AS, kind: RollupKind::Sample },
            ],
        )
    }

    open spec fn spec_condense(&self) -> Option<CondenseSpec> {
        None
    }

    open spec fn spec_has_probe(&self) -> bool {
        false
    }

    open spec fn spec_probe(&self, bytes: Seq<u8>, ctx: Context) -> Option<u8> {
        None
    }

    open spec fn spec_predecessors(&self) -> Seq<ProtocolName> {
        Seq::empty()
    }

    fn name(&self) -> (r: ProtocolName) {
        "bgp"
    }

    fn parse(&self, bytes: &[u8], ctx: &ParseCtx) -> (r: Result<ParsedLayer, ParseError>) {
        let mut r = ByteReader::new(bytes);
        let _marker = r.take(16)?;
        let length: usize = r.u16_be()? as usize;
        let msg_type: u8 = r.u8()?;
        if length < HEADER_LEN || length > MAX_LENGTH {
            return Err(ParseError::Malformed("BGP: length out of range"));
        }
        let body = r.take(length - HEADER_LEN)?;

        let mut fields = FieldMap::new();
        if ctx.keys() {
            fields.insert(APP, Value::from("bgp"));
        }
        if ctx.structural() {
            fields.insert(MSG_TYPE, Value::U64(msg_type as u64));
            fields.insert(LENGTH, Value::U64(length as u64));
        }
        if msg_type == TYPE_OPEN {
            let mut br = ByteReader::new(body);
            let version: u8 = br.u8()?;
            if version != BGP_VERSION_4 {
                return Err(ParseError::Malformed("BGP: unsupported OPEN version"));
            }
            let my_as: u16 = br.u16_be()?;
            let hold_time: u16 = br.u16_be()?;
            let identifier = br.take(4)?;
            let parameters_len: u8 = br.u8()?;
            let _parameters = br.take(parameters_len as usize)?;
            if ctx.full() {
                fields.insert(MY_AS, Value::U64(my_as as u64));
                fields.insert(HOLD_TIME, Value::U64(hold_time as u64));
                fields.insert(BGP_IDENTIFIER, Value::from(identifier));
            }
        } else if msg_type == TYPE_UPDATE {
            let routes = read_update(body)?;
            if ctx.full() {
                proof {
                    value::lemma_list_view(routes.withdrawn);
                    value::lemma_list_view(routes.announced);
                }
                fields.insert(WITHDRAWN_ROUTES, Value::List(routes.withdrawn));
                fields.insert(NLRI, Value::List(routes.announced));
                if let Some(h) = routes.next_hop {
                    fields.insert(NEXT_HOP, Value::from(h));
                }
            }
        }
        Ok(ParsedLayer { header_len: length, fields, hint: Hint::Terminal })
    }

    fn claims(&self) -> (r: &'static [RouteId]) {
        &[RouteId::TcpPort(179)]
    }

    fn stream_identity(&self) -> (r: Option<StreamIdentity>) {
        identity::conversation(
            &[KeyField { a: APP, b: None }],
            &[
                RollupSpec { field: MSG_TYPE, kind: RollupKind::Accumulate },
                RollupSpec { field: MY_AS, kind: RollupKind::Sample },
            ],
        )
    }

    fn condense(&self) -> (r: Option<CondenseSpec>) {
        None
    }

    fn has_probe(&self) -> (r: bool) {
        false
    }

    fn probe(&self, bytes: &[u8], ctx: &ParseCtx) -> (r: Option<Confidence>) {
        None
    }

    fn expected_predecessors(&self) -> (r: &'static [ProtocolName]) {
        &[]
    }
}

} // verus!

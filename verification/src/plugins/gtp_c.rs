//! GTP-C, the mobile core's control plane: GTPv1-C (3GPP TS 29.060) and GTPv2-C
//! (3GPP TS 29.274), told apart by the version in the first octet. The header's own
//! length bounds the message.
//!
//! Subscriber and access point are looked up in the information elements. A GTPv1-C
//! element whose type is below 0x80 has a fixed length that its type must tell, so
//! the walk ends at the first such type that is not in the table; every other
//! element says its own length. What the walk cannot reach is left out.
use vstd::prelude::*;

use crate::bytes::{self, ByteReader, ParseError};
use crate::identity::{
    self, CondenseSpec, Identity, KeyField, RollupKind, RollupSpec, StreamIdentity,
};
use crate::layer::{Confidence, Context, Hint, LayerPlugin, ParseCtx, Parsed, ParsedLayer, RouteId};
use crate::text;
use vstd::string::StringExecFns;
use crate::value::{FieldMap, FieldName, Fields, ProtocolName, Value, ValueView};

verus! {

pub const TEID: FieldName = "teid";

pub const VERSION: FieldName = "version";

pub const MESSAGE_TYPE: FieldName = "message_type";

pub const LENGTH: FieldName = "length";

pub const IMSI: FieldName = "imsi";

pub const APN: FieldName = "apn";

pub const VERSION_MASK: u8 = 0xE0;

pub const VERSION_SHIFT: u8 = 5;

/// Clear for GTP', which is another protocol.
pub const V1_PT_BIT: u8 = 0x10;

/// Any of the three flags that bring in the 4-byte optional block.
pub const V1_OPTIONAL_BITS: u8 = 0x07;

/// Set when a TEID is present.
pub const V2_T_BIT: u8 = 0x08;

pub const V1_IMSI_TYPE: u8 = 0x02;

pub const V1_APN_TYPE: u8 = 0x83;

pub const V2_IMSI_TYPE: u8 = 1;

pub const V2_APN_TYPE: u8 = 71;

/// The value length of the GTPv1-C element types below 0x80 that the walk
/// knows.
pub open spec fn tv_length(kind: u8) -> Option<int> {
    if kind == 0x01 || kind == 0x0E || kind == 0x0F || kind == 0x14 {
        Some(1)
    } else if kind == 0x02 {
        Some(8)
    } else if kind == 0x03 {
        Some(6)
    } else if kind == 0x10 || kind == 0x11 {
        Some(4)
    } else if kind == 0x12 {
        Some(5)
    } else if kind == 0x1A {
        Some(2)
    } else {
        None
    }
}

/// The `i`th nibble, the low one of each octet first.
pub open spec fn nibble(d: Seq<u8>, i: int) -> u8 {
    if i % 2 == 0 {
        d[i / 2] & 0x0F
    } else {
        (d[i / 2] >> 4) & 0x0F
    }
}

/// The decimal digits from nibble `i` on, after `found`: up to the end or to
/// the filler, and none at all if another nibble is no digit.
pub open spec fn bcd_digits(d: Seq<u8>, i: int, found: Seq<char>) -> Option<Seq<char>>
    decreases 2 * d.len() - i,
{
    if i < 0 || i >= 2 * d.len() || nibble(d, i) == 0xF {
        if found.len() > 0 {
            Some(found)
        } else {
            None
        }
    } else if nibble(d, i) > 9 {
        None
    } else {
        bcd_digits(d, i + 1, found.push(text::digit(nibble(d, i) as int)))
    }
}

/// `found` with one more label.
pub open spec fn joined(found: Option<Seq<char>>, label: Seq<char>) -> Option<Seq<char>> {
    match found {
        None => Some(label),
        Some(f) => Some(f.push('.') + label),
    }
}

/// The dotted name from `p` on, after `found`: labels, each behind its length.
pub open spec fn apn_labels(d: Seq<u8>, p: int, found: Option<Seq<char>>) -> Option<Seq<char>>
    decreases d.len() - p,
{
    if p < 0 || p >= d.len() {
        found
    } else if d.len() < p + 1 + d[p] || !vstd::utf8::valid_utf8(d.subrange(p + 1, p + 1 + d[p])) {
        None
    } else {
        apn_labels(
            d,
            p + 1 + d[p],
            joined(found, vstd::utf8::decode_utf8(d.subrange(p + 1, p + 1 + d[p]))),
        )
    }
}

/// Subscriber and access point, where found.
#[verifier::ext_equal]
pub struct Names {
    pub imsi: Option<Seq<char>>,
    pub apn: Option<Seq<char>>,
}

pub open spec fn no_names() -> Names {
    Names { imsi: None, apn: None }
}

pub open spec fn with_imsi(n: Names, v: Seq<u8>) -> Names {
    Names { imsi: bcd_digits(v, 0, Seq::empty()), ..n }
}

pub open spec fn with_apn(n: Names, v: Seq<u8>) -> Names {
    Names { apn: apn_labels(v, 0, None), ..n }
}

/// The GTPv1-C elements from `p` on, after `n`.
pub open spec fn v1_elements(d: Seq<u8>, p: int, n: Names) -> Names
    decreases d.len() - p,
{
    if p < 0 || p >= d.len() {
        n
    } else if d[p] < 0x80 {
        match tv_length(d[p]) {
            None => n,
            Some(len) => if len < 0 || d.len() < p + 1 + len {
                n
            } else {
                v1_elements(
                    d,
                    p + 1 + len,
                    if d[p] == V1_IMSI_TYPE {
                        with_imsi(n, d.subrange(p + 1, p + 1 + len))
                    } else {
                        n
                    },
                )
            },
        }
    } else if d.len() < p + 3 || d.len() < p + 3 + bytes::be16(d, p + 1) {
        n
    } else {
        let end = p + 3 + bytes::be16(d, p + 1);
        v1_elements(
            d,
            end,
            if d[p] == V1_APN_TYPE {
                with_apn(n, d.subrange(p + 3, end))
            } else {
                n
            },
        )
    }
}

/// The GTPv2-C elements from `p` on, after `n`: type, length, instance, value.
pub open spec fn v2_elements(d: Seq<u8>, p: int, n: Names) -> Names
    decreases d.len() - p,
{
    if p < 0 || d.len() < p + 4 || d.len() < p + 4 + bytes::be16(d, p + 1) {
        n
    } else {
        let end = p + 4 + bytes::be16(d, p + 1);
        v2_elements(
            d,
            end,
            if d[p] == V2_IMSI_TYPE {
                with_imsi(n, d.subrange(p + 4, end))
            } else if d[p] == V2_APN_TYPE {
                with_apn(n, d.subrange(p + 4, end))
            } else {
                n
            },
        )
    }
}

pub open spec fn version(b: Seq<u8>) -> u8 {
    (b[0] & VERSION_MASK) >> VERSION_SHIFT
}

/// Whether a tunnel id is present.
pub open spec fn has_teid(b: Seq<u8>) -> bool {
    version(b) == 1 || b[0] & V2_T_BIT != 0
}

/// Whether four more bytes follow what the version always has.
pub open spec fn has_block(b: Seq<u8>) -> bool {
    version(b) == 2 || b[0] & V1_OPTIONAL_BITS != 0
}

/// Where the information elements start.
pub open spec fn elements_at(b: Seq<u8>) -> int {
    4 + (if has_teid(b) {
        4int
    } else {
        0
    }) + (if has_block(b) {
        4int
    } else {
        0
    })
}

pub open spec fn header_end(b: Seq<u8>) -> int {
    if version(b) == 1 {
        8 + bytes::be16(b, 2)
    } else {
        4 + bytes::be16(b, 2)
    }
}

pub open spec fn names(b: Seq<u8>) -> Names {
    let d = b.subrange(elements_at(b), header_end(b));
    if version(b) == 1 {
        v1_elements(d, 0, no_names())
    } else {
        v2_elements(d, 0, no_names())
    }
}

pub open spec fn fields(b: Seq<u8>, ctx: Context) -> Fields {
    let f = Map::<Seq<char>, ValueView>::empty();
    let f = if ctx.keys() {
        f.insert(
            TEID@,
            ValueView::U64(
                if has_teid(b) {
                    bytes::be32(b, 4) as u64
                } else {
                    0
                },
            ),
        )
    } else {
        f
    };
    let f = if ctx.structural() {
        f.insert(VERSION@, ValueView::U64(version(b) as u64)).insert(
            MESSAGE_TYPE@,
            ValueView::U64(b[1] as u64),
        ).insert(LENGTH@, ValueView::U64(bytes::be16(b, 2) as u64))
    } else {
        f
    };
    let f = if ctx.full() && names(b).imsi is Some {
        f.insert(IMSI@, ValueView::Str(names(b).imsi->0))
    } else {
        f
    };
    if ctx.full() && names(b).apn is Some {
        f.insert(APN@, ValueView::Str(names(b).apn->0))
    } else {
        f
    }
}

/// The message at the start of `b`.
pub open spec fn message(b: Seq<u8>, ctx: Context) -> Result<Parsed, ParseError> {
    if b.len() < 1 {
        Err(bytes::short(b, 0, 1))
    } else if version(b) != 1 && version(b) != 2 {
        Err(ParseError::Malformed("unsupported GTP-C version"))
    } else if version(b) == 1 && b[0] & V1_PT_BIT == 0 {
        Err(ParseError::Malformed("GTPv1-C: PT bit selects GTP', not GTP"))
    } else if b.len() < 2 {
        Err(bytes::short(b, 1, 1))
    } else if b.len() < 4 {
        Err(bytes::short(b, 2, 2))
    } else if b.len() < elements_at(b) {
        Err(bytes::short(b, b.len() - b.len() % 4, 4))
    } else if header_end(b) < elements_at(b) {
        Err(ParseError::Malformed("GTP-C length shorter than the header it must contain"))
    } else if b.len() < header_end(b) {
        Err(bytes::short(b, elements_at(b), header_end(b) - elements_at(b)))
    } else {
        Ok(Parsed { header_len: header_end(b), fields: fields(b, ctx), hint: Hint::Terminal })
    }
}

fn known_tv_length(kind: u8) -> (r: Option<usize>)
    ensures
        match tv_length(kind) {
            Some(n) => r is Some && r->0 == n,
            None => r is None,
        },
{
    if kind == 0x01 || kind == 0x0E || kind == 0x0F || kind == 0x14 {
        Some(1)
    } else if kind == 0x02 {
        Some(8)
    } else if kind == 0x03 {
        Some(6)
    } else if kind == 0x10 || kind == 0x11 {
        Some(4)
    } else if kind == 0x12 {
        Some(5)
    } else if kind == 0x1A {
        Some(2)
    } else {
        None
    }
}

spec fn same_text(a: Option<String>, b: Option<Seq<char>>) -> bool {
    match (a, b) {
        (Some(a), Some(b)) => a@ == b,
        (None, None) => true,
        _ => false,
    }
}

fn decode_bcd_digits(d: &[u8]) -> (r: Option<String>)
    ensures
        same_text(r, bcd_digits(d@, 0, Seq::empty())),
{
    let n: usize = d.len();
    let mut out = String::new();
    let mut some: bool = false;
    let mut i: usize = 0;
    while i < n
        invariant
            n == d@.len(),
            i <= n,
            some == (out@.len() > 0),
            bcd_digits(d@, 0, Seq::empty()) == bcd_digits(d@, 2 * i, out@),
        decreases n - i,
    {
        let b: u8 = d[i];
        let low: u8 = b & 0x0F;
        let high: u8 = (b >> 4) & 0x0F;
        assert(nibble(d@, 2 * i) == low);
        assert(nibble(d@, 2 * i + 1) == high);
        if low == 0xF {
            return if some {
                Some(out)
            } else {
                None
            };
        }
        if low > 9 {
            return None;
        }
        let ghost before = out@;
        out.push((0x30u8 + low) as char);
        assert(bcd_digits(d@, 2 * i, before) == bcd_digits(d@, 2 * i + 1, out@));
        some = true;
        if high == 0xF {
            return Some(out);
        }
        if high > 9 {
            return None;
        }
        let ghost between = out@;
        out.push((0x30u8 + high) as char);
        assert(bcd_digits(d@, 2 * i + 1, between) == bcd_digits(d@, 2 * i + 2, out@));
        i = i + 1;
    }
    if some {
        Some(out)
    } else {
        None
    }
}

fn decode_apn_labels(d: &[u8]) -> (r: Option<String>)
    ensures
        same_text(r, apn_labels(d@, 0, None)),
{
    let n: usize = d.len();
    let mut out: Option<String> = None;
    let ghost mut found: Option<Seq<char>> = None;
    let mut p: usize = 0;
    while p < n
        invariant
            n == d@.len(),
            same_text(out, found),
            apn_labels(d@, 0, None) == apn_labels(d@, p as int, found),
        decreases n - p,
    {
        let len: usize = d[p] as usize;
        if n - p - 1 < len {
            return None;
        }
        let label = match text::utf8_checked(vstd::slice::slice_subrange(d, p + 1, p + 1 + len)) {
            Some(s) => s,
            None => {
                return None;
            },
        };
        proof {
            found = joined(found, label@);
        }
        out =
        match out {
            None => Some(label),
            Some(mut s) => {
                s.push('.');
                s.append(label.as_str());
                Some(s)
            },
        };
        p = p + 1 + len;
    }
    out
}

struct FoundNames {
    imsi: Option<String>,
    apn: Option<String>,
}

impl FoundNames {
    spec fn is(self, n: Names) -> bool {
        same_text(self.imsi, n.imsi) && same_text(self.apn, n.apn)
    }
}

fn walk_v1(d: &[u8]) -> (r: FoundNames)
    ensures
        r.is(v1_elements(d@, 0, no_names())),
{
    let mut r = ByteReader::new(d);
    let mut found = FoundNames { imsi: None, apn: None };
    let ghost mut n = no_names();
    while r.remaining() > 0
        invariant
            r.wf(),
            r.data@ == d@,
            found.is(n),
            v1_elements(d@, 0, no_names()) == v1_elements(d@, r.pos as int, n),
        decreases d@.len() - r.pos,
    {
        let kind: u8 = match r.u8() {
            Ok(k) => k,
            Err(_) => {
                return found;
            },
        };
        if kind < 0x80 {
            let len: usize = match known_tv_length(kind) {
                Some(len) => len,
                None => {
                    return found;
                },
            };
            let v = match r.take(len) {
                Ok(v) => v,
                Err(_) => {
                    return found;
                },
            };
            if kind == V1_IMSI_TYPE {
                found.imsi = decode_bcd_digits(v);
                proof {
                    n = with_imsi(n, v@);
                }
            }
        } else {
            let len: u16 = match r.u16_be() {
                Ok(len) => len,
                Err(_) => {
                    return found;
                },
            };
            let v = match r.take(len as usize) {
                Ok(v) => v,
                Err(_) => {
                    return found;
                },
            };
            if kind == V1_APN_TYPE {
                found.apn = decode_apn_labels(v);
                proof {
                    n = with_apn(n, v@);
                }
            }
        }
    }
    found
}

fn walk_v2(d: &[u8]) -> (r: FoundNames)
    ensures
        r.is(v2_elements(d@, 0, no_names())),
{
    let mut r = ByteReader::new(d);
    let mut found = FoundNames { imsi: None, apn: None };
    let ghost mut n = no_names();
    while r.remaining() >= 4
        invariant
            r.wf(),
            r.data@ == d@,
            found.is(n),
            v2_elements(d@, 0, no_names()) == v2_elements(d@, r.pos as int, n),
        decreases d@.len() - r.pos,
    {
        let kind: u8 = d[r.pos];
        let len: usize = d[r.pos + 1] as usize * 0x100 + d[r.pos + 2] as usize;
        r.pos = r.pos + 4;
        let v = match r.take(len) {
            Ok(v) => v,
            Err(_) => {
                return found;
            },
        };
        if kind == V2_IMSI_TYPE {
            found.imsi = decode_bcd_digits(v);
            proof {
                n = with_imsi(n, v@);
            }
        } else if kind == V2_APN_TYPE {
            found.apn = decode_apn_labels(v);
            proof {
                n = with_apn(n, v@);
            }
        }
    }
    found
}

pub struct GtpC;

impl LayerPlugin for GtpC {
    open spec fn spec_parse(&self, bytes: Seq<u8>, ctx: Context) -> Result<Parsed, ParseError> {
        message(bytes, ctx)
    }

    open spec fn spec_name(&self) -> Seq<char> {
        "gtp_c"@
    }

    open spec fn spec_claims(&self) -> Seq<RouteId> {
        seq![RouteId::UdpPort(2123)]
    }

    open spec fn spec_identity(&self) -> Option<Identity> {
        identity::conversation_of(
            seq![KeyField { a: TEID, b: None }],
            seq![RollupSpec { field: MESSAGE_TYPE, kind: RollupKind::Accumulate }],
        )
    }

    open spec fn spec_condense(&self) -> Option<CondenseSpec> {
        None
    }

    open spec fn spec_has_probe(&self) -> bool {
        false
    }

    open spec fn spec_probe(&self, bytes: Seq<u8>, ctx: Context) -> Option<u8> {
        None
    }

    open spec fn spec_predecessors(&self) -> Seq<ProtocolName> {
        Seq::empty()
    }

    fn name(&self) -> (r: ProtocolName) {
        "gtp_c"
    }

    fn parse(&self, bytes: &[u8], ctx: &ParseCtx) -> (r: Result<ParsedLayer, ParseError>) {
        let mut r = ByteReader::new(bytes);
        let flags: u8 = r.u8()?;
        let version: u8 = (flags & VERSION_MASK) >> VERSION_SHIFT;
        if version != 1 && version != 2 {
            return Err(ParseError::Malformed("unsupported GTP-C version"));
        }
        if version == 1 && flags & V1_PT_BIT == 0 {
            return Err(ParseError::Malformed("GTPv1-C: PT bit selects GTP', not GTP"));
        }
        let message_type: u8 = r.u8()?;
        let length: u16 = r.u16_be()?;
        let mut teid: u32 = 0;
        if version == 1 || flags & V2_T_BIT != 0 {
            teid = r.u32_be()?;
        }
        if version == 2 || flags & V1_OPTIONAL_BITS != 0 {
            let _sequence_block = r.take(4)?;
        }
        let header_len: usize = if version == 1 {
            8 + length as usize
        } else {
            4 + length as usize
        };
        if header_len < r.pos {
            return Err(ParseError::Malformed("GTP-C length shorter than the header it must contain"));
        }
        let elements = r.take(header_len - r.pos)?;

        let mut fields = FieldMap::new();
        if ctx.keys() {
            fields.insert(TEID, Value::U64(teid as u64));
        }
        if ctx.structural() {
            fields.insert(VERSION, Value::U64(version as u64));
            fields.insert(MESSAGE_TYPE, Value::U64(message_type as u64));
            fields.insert(LENGTH, Value::U64(length as u64));
        }
        if ctx.full() {
            let found = if version == 1 {
                walk_v1(elements)
            } else {
                walk_v2(elements)
            };
            if let Some(v) = found.imsi {
                fields.insert(IMSI, Value::Str(v));
            }
            if let Some(v) = found.apn {
                fields.insert(APN, Value::Str(v));
            }
        }
        Ok(ParsedLayer { header_len, fields, hint: Hint::Terminal })
    }

    fn claims(&self) -> (r: &'static [RouteId]) {
        &[RouteId::UdpPort(2123)]
    }

    fn stream_identity(&self) -> (r: Option<StreamIdentity>) {
        identity::conversation(
            &[KeyField { a: TEID, b: None }],
            &[RollupSpec { field: MESSAGE_TYPE, kind: RollupKind::Accumulate }],
        )
    }

    fn condense(&self) -> (r: Option<CondenseSpec>) {
        None
    }

    fn has_probe(&self) -> (r: bool) {
        false
    }

    fn probe(&self, bytes: &[u8], ctx: &ParseCtx) -> (r: Option<Confidence>) {
        None
    }

    fn expected_predecessors(&self) -> (r: &'static [ProtocolName]) {
        &[]
    }
}

} // verus!

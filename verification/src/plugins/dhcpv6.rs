//! DHCPv6 (RFC 8415), client and server messages: message type, 24-bit transaction
//! id, and options back to back up to the end of the datagram, which is the only
//! terminator they have. Relay messages have another layout and are declined.
use vstd::prelude::*;

use crate::bytes::{self, ByteReader, ParseError};
use crate::identity::{
    self, CondenseSpec, Identity, KeyField, RollupKind, RollupSpec, StreamIdentity,
};
use crate::layer::{Confidence, Context, Hint, LayerPlugin, ParseCtx, Parsed, ParsedLayer, RouteId};
use crate::value::{FieldMap, FieldName, Fields, ProtocolName, Value, ValueView};

verus! {

pub const APP: FieldName = "app";

pub const MSG_TYPE: FieldName = "msg_type";

pub const TRANSACTION_ID: FieldName = "transaction_id";

pub const CLIENT_DUID: FieldName = "client_duid";

pub const SERVER_DUID: FieldName = "server_duid";

pub const REQUESTED_IP: FieldName = "requested_ip";

pub const PREFERRED_LIFETIME: FieldName = "preferred_lifetime";

pub const VALID_LIFETIME: FieldName = "valid_lifetime";

pub const RELAY_FORW: u8 = 12;

pub const RELAY_REPL: u8 = 13;

pub const OPTION_CLIENTID: u16 = 1;

pub const OPTION_SERVERID: u16 = 2;

pub const OPTION_IA_NA: u16 = 3;

pub const OPTION_IA_TA: u16 = 4;

pub const OPTION_IAADDR: u16 = 5;

/// An assigned address and its lifetimes.
pub struct Lease {
    pub address: Seq<u8>,
    pub preferred: u32,
    pub valid: u32,
}

/// What the options say; the first option of a kind counts.
pub struct Options {
    pub client_duid: Option<Seq<u8>>,
    pub server_duid: Option<Seq<u8>>,
    pub lease: Option<Lease>,
}

pub open spec fn no_options() -> Options {
    Options { client_duid: None, server_duid: None, lease: None }
}

/// The content of an option at `p`, past its code and length.
pub open spec fn option_data(b: Seq<u8>, p: int) -> Seq<u8> {
    b.subrange(p + 4, p + 4 + bytes::be16(b, p + 2))
}

/// Why no complete option stands at `p`, if none does.
pub open spec fn option_short(b: Seq<u8>, p: int) -> Option<ParseError> {
    if b.len() < p + 2 {
        Some(bytes::short(b, p, 2))
    } else if b.len() < p + 4 {
        Some(bytes::short(b, p + 2, 2))
    } else if b.len() < p + 4 + bytes::be16(b, p + 2) {
        Some(bytes::short(b, p + 4, bytes::be16(b, p + 2) as int))
    } else {
        None
    }
}

/// The content of an IA Address suboption.
pub open spec fn ia_address(s: Seq<u8>) -> Result<Lease, ParseError> {
    if s.len() < 16 {
        Err(bytes::short(s, 0, 16))
    } else if s.len() < 20 {
        Err(bytes::short(s, 16, 4))
    } else if s.len() < 24 {
        Err(bytes::short(s, 20, 4))
    } else {
        Ok(
            Lease {
                address: s.subrange(0, 16),
                preferred: bytes::be32(s, 16),
                valid: bytes::be32(s, 20),
            },
        )
    }
}

/// The first IA Address among the suboptions of `d` from `p` on, after
/// `found`. Every suboption has to be complete.
pub open spec fn first_address(d: Seq<u8>, p: int, found: Option<Lease>) -> Result<
    Option<Lease>,
    ParseError,
>
    decreases d.len() - p,
{
    if p < 0 || p >= d.len() {
        Ok(found)
    } else {
        match option_short(d, p) {
            Some(e) => Err(e),
            None => if bytes::be16(d, p) == OPTION_IAADDR && found is None {
                match ia_address(option_data(d, p)) {
                    Err(e) => Err(e),
                    Ok(l) => first_address(d, p + 4 + bytes::be16(d, p + 2), Some(l)),
                }
            } else {
                first_address(d, p + 4 + bytes::be16(d, p + 2), found)
            },
        }
    }
}

/// `o` after an identity association whose suboptions start at `at`.
pub open spec fn with_association(o: Options, data: Seq<u8>, at: int, reason: &'static str) -> Result<
    Options,
    ParseError,
> {
    if data.len() < at {
        Err(ParseError::Malformed(reason))
    } else {
        match first_address(data.subrange(at, data.len() as int), 0, None) {
            Err(e) => Err(e),
            Ok(lease) => Ok(Options { lease, ..o }),
        }
    }
}

/// `o` after the option `code` with content `data`.
pub open spec fn with_option(o: Options, code: u16, data: Seq<u8>) -> Result<Options, ParseError> {
    if code == OPTION_CLIENTID && o.client_duid is None {
        Ok(Options { client_duid: Some(data), ..o })
    } else if code == OPTION_SERVERID && o.server_duid is None {
        Ok(Options { server_duid: Some(data), ..o })
    } else if code == OPTION_IA_NA && o.lease is None {
        with_association(o, data, 12, "DHCPv6: IA_NA shorter than IAID+T1+T2 (RFC 8415 §21.4)")
    } else if code == OPTION_IA_TA && o.lease is None {
        with_association(o, data, 4, "DHCPv6: IA_TA shorter than IAID (RFC 8415 §21.5)")
    } else {
        Ok(o)
    }
}

/// The options from `p` to the end of `b`, after `o`.
pub open spec fn options(b: Seq<u8>, p: int, o: Options) -> Result<Options, ParseError>
    decreases b.len() - p,
{
    if p < 0 || p >= b.len() {
        Ok(o)
    } else {
        match option_short(b, p) {
            Some(e) => Err(e),
            None => match with_option(o, bytes::be16(b, p), option_data(b, p)) {
                Err(e) => Err(e),
                Ok(n) => options(b, p + 4 + bytes::be16(b, p + 2), n),
            },
        }
    }
}

pub open spec fn fields(b: Seq<u8>, o: Options, ctx: Context) -> Fields {
    let f = Map::<Seq<char>, ValueView>::empty();
    let f = if ctx.keys() {
        f.insert(APP@, ValueView::Str("dhcpv6"@))
    } else {
        f
    };
    let f = if ctx.structural() {
        f.insert(MSG_TYPE@, ValueView::U64(b[0] as u64)).insert(
            TRANSACTION_ID@,
            ValueView::U64(bytes::be24(b, 1) as u64),
        )
    } else {
        f
    };
    let f = if ctx.full() && o.client_duid is Some {
        f.insert(CLIENT_DUID@, ValueView::Bytes(o.client_duid->0))
    } else {
        f
    };
    let f = if ctx.full() && o.server_duid is Some {
        f.insert(SERVER_DUID@, ValueView::Bytes(o.server_duid->0))
    } else {
        f
    };
    if ctx.full() && o.lease is Some {
        f.insert(REQUESTED_IP@, ValueView::Bytes(o.lease->0.address)).insert(
            PREFERRED_LIFETIME@,
            ValueView::U64(o.lease->0.preferred as u64),
        ).insert(VALID_LIFETIME@, ValueView::U64(o.lease->0.valid as u64))
    } else {
        f
    }
}

/// The message that `b` is.
pub open spec fn message(b: Seq<u8>, ctx: Context) -> Result<Parsed, ParseError> {
    if b.len() < 1 {
        Err(bytes::short(b, 0, 1))
    } else if b[0] == RELAY_FORW || b[0] == RELAY_REPL {
        Err(ParseError::Malformed("DHCPv6: relay message layout not supported (RFC 8415 §7.2)"))
    } else if b.len() < 4 {
        Err(bytes::short(b, 1, 3))
    } else {
        match options(b, 4, no_options()) {
            Err(e) => Err(e),
            Ok(o) => Ok(
                Parsed {
                    header_len: b.len() as int,
                    fields: fields(b, o, ctx),
                    hint: Hint::Terminal,
                },
            ),
        }
    }
}

struct FoundLease<'a> {
    address: &'a [u8],
    preferred: u32,
    valid: u32,
}

struct Found<'a> {
    client_duid: Option<&'a [u8]>,
    server_duid: Option<&'a [u8]>,
    lease: Option<FoundLease<'a>>,
}

spec fn same_lease(a: Option<FoundLease>, b: Option<Lease>) -> bool {
    match (a, b) {
        (Some(a), Some(b)) => a.address@ == b.address && a.preferred == b.preferred && a.valid
            == b.valid,
        (None, None) => true,
        _ => false,
    }
}

spec fn same_bytes(a: Option<&[u8]>, b: Option<Seq<u8>>) -> bool {
    match (a, b) {
        (Some(a), Some(b)) => a@ == b,
        (None, None) => true,
        _ => false,
    }
}

impl<'a> Found<'a> {
    spec fn is(self, o: Options) -> bool {
        same_bytes(self.client_duid, o.client_duid) && same_bytes(self.server_duid, o.server_duid)
            && same_lease(self.lease, o.lease)
    }
}

fn read_option<'a>(r: &mut ByteReader<'a>) -> (res: Result<(u16, &'a [u8]), ParseError>)
    requires
        old(r).wf(),
    ensures
        final(r).wf(),
        final(r).data == old(r).data,
        match option_short(old(r).data@, old(r).pos as int) {
            Some(e) => res is Err && res->Err_0 == e,
            None => res is Ok && res->Ok_0.0 == bytes::be16(old(r).data@, old(r).pos as int)
                && res->Ok_0.1@ == option_data(old(r).data@, old(r).pos as int) && final(r).pos
                == old(r).pos + 4 + bytes::be16(old(r).data@, old(r).pos + 2),
        },
{
    let code: u16 = r.u16_be()?;
    let len: u16 = r.u16_be()?;
    let data = r.take(len as usize)?;
    Ok((code, data))
}

fn read_ia_address<'a>(sub: &'a [u8]) -> (res: Result<FoundLease<'a>, ParseError>)
    ensures
        match ia_address(sub@) {
            Err(e) => res is Err && res->Err_0 == e,
            Ok(l) => res is Ok && same_lease(Some(res->Ok_0), Some(l)),
        },
{
    let mut r = ByteReader::new(sub);
    let address = r.take(16)?;
    let preferred: u32 = r.u32_be()?;
    let valid: u32 = r.u32_be()?;
    Ok(FoundLease { address, preferred, valid })
}

fn first_ia_address<'a>(data: &'a [u8]) -> (res: Result<Option<FoundLease<'a>>, ParseError>)
    ensures
        match first_address(data@, 0, None) {
            Err(e) => res is Err && res->Err_0 == e,
            Ok(l) => res is Ok && same_lease(res->Ok_0, l),
        },
{
    let mut r = ByteReader::new(data);
    let mut found: Option<FoundLease<'a>> = None;
    let ghost mut f: Option<Lease> = None;
    while r.remaining() > 0
        invariant
            r.wf(),
            r.data@ == data@,
            same_lease(found, f),
            first_address(data@, 0, None) == first_address(data@, r.pos as int, f),
        decreases data@.len() - r.pos,
    {
        let (code, sub) = read_option(&mut r)?;
        if code == OPTION_IAADDR && found.is_none() {
            let l = read_ia_address(sub)?;
            proof {
                f = Some(ia_address(sub@)->Ok_0);
            }
            found = Some(l);
        }
    }
    Ok(found)
}

fn read_association<'a>(data: &'a [u8], at: usize, reason: &'static str) -> (res: Result<
    Option<FoundLease<'a>>,
    ParseError,
>)
    ensures
        match with_association(no_options(), data@, at as int, reason) {
            Err(e) => res is Err && res->Err_0 == e,
            Ok(o) => res is Ok && same_lease(res->Ok_0, o.lease),
        },
{
    if data.len() < at {
        return Err(ParseError::Malformed(reason));
    }
    first_ia_address(vstd::slice::slice_subrange(data, at, data.len()))
}

fn read_options<'a>(r: &mut ByteReader<'a>) -> (res: Result<Found<'a>, ParseError>)
    requires
        old(r).wf(),
    ensures
        final(r).wf(),
        final(r).data == old(r).data,
        match options(old(r).data@, old(r).pos as int, no_options()) {
            Ok(o) => res is Ok && res->Ok_0.is(o),
            Err(e) => res is Err && res->Err_0 == e,
        },
{
    let mut found: Found<'a> = Found { client_duid: None, server_duid: None, lease: None };
    let ghost mut o = no_options();
    while r.remaining() > 0
        invariant
            r.wf(),
            r.data == old(r).data,
            found.is(o),
            options(r.data@, old(r).pos as int, no_options()) == options(r.data@, r.pos as int, o),
        decreases r.data@.len() - r.pos,
    {
        let (code, data) = read_option(r)?;
        let ghost before = o;
        if code == OPTION_CLIENTID && found.client_duid.is_none() {
            found.client_duid = Some(data);
        } else if code == OPTION_SERVERID && found.server_duid.is_none() {
            found.server_duid = Some(data);
        } else if code == OPTION_IA_NA && found.lease.is_none() {
            found.lease =
            read_association(data, 12, "DHCPv6: IA_NA shorter than IAID+T1+T2 (RFC 8415 §21.4)")?;
        } else if code == OPTION_IA_TA && found.lease.is_none() {
            found.lease =
            read_association(data, 4, "DHCPv6: IA_TA shorter than IAID (RFC 8415 §21.5)")?;
        }
        proof {
            o = with_option(before, code, data@)->Ok_0;
        }
    }
    Ok(found)
}

pub struct Dhcpv6;

impl LayerPlugin for Dhcpv6 {
    open spec fn spec_parse(&self, bytes: Seq<u8>, ctx: Context) -> Result<Parsed, ParseError> {
        message(bytes, ctx)
    }

    open spec fn spec_name(&self) -> Seq<char> {
        "dhcpv6"@
    }

    open spec fn spec_claims(&self) -> Seq<RouteId> {
        seq![RouteId::UdpPort(547), RouteId::UdpPort(546)]
    }

    open spec fn spec_identity(&self) -> Option<Identity> {
        identity::conversation_of(
            seq![KeyField { a: APP, b: None }],
            seq![RollupSpec { field: MSG_TYPE, kind: RollupKind::Series { cap: 64 } }],
        )
    }

    open spec fn spec_condense(&self) -> Option<CondenseSpec> {
        None
    }

    open spec fn spec_has_probe(&self) -> bool {
        false
    }

    open spec fn spec_probe(&self, bytes: Seq<u8>, ctx: Context) -> Option<u8> {
        None
    }

    open spec fn spec_predecessors(&self) -> Seq<ProtocolName> {
        Seq::empty()
    }

    fn name(&self) -> (r: ProtocolName) {
        "dhcpv6"
    }

    fn parse(&self, bytes: &[u8], ctx: &ParseCtx) -> (r: Result<ParsedLayer, ParseError>) {
        let mut r = ByteReader::new(bytes);
        let msg_type: u8 = r.u8()?;
        if msg_type == RELAY_FORW || msg_type == RELAY_REPL {
            return Err(
                ParseError::Malformed("DHCPv6: relay message layout not supported (RFC 8415 §7.2)"),
            );
        }
        let transaction_id: u32 = r.u24_be()?;
        let found = read_options(&mut r)?;

        let mut fields = FieldMap::new();
        if ctx.keys() {
            fields.insert(APP, Value::from("dhcpv6"));
        }
        if ctx.structural() {
            fields.insert(MSG_TYPE, Value::U64(msg_type as u64));
            fields.insert(TRANSACTION_ID, Value::U64(transaction_id as u64));
        }
        if ctx.full() {
            if let Some(v) = found.client_duid {
                fields.insert(CLIENT_DUID, Value::from(v));
            }
            if let Some(v) = found.server_duid {
                fields.insert(SERVER_DUID, Value::from(v));
            }
            if let Some(l) = found.lease {
                fields.insert(REQUESTED_IP, Value::from(l.address));
                fields.insert(PREFERRED_LIFETIME, Value::U64(l.preferred as u64));
                fields.insert(VALID_LIFETIME, Value::U64(l.valid as u64));
            }
        }
        Ok(ParsedLayer { header_len: bytes.len(), fields, hint: Hint::Terminal })
    }

    fn claims(&self) -> (r: &'static [RouteId]) {
        &[RouteId::UdpPort(547), RouteId::UdpPort(546)]
    }

    fn stream_identity(&self) -> (r: Option<StreamIdentity>) {
        identity::conversation(
            &[KeyField { a: APP, b: None }],
            &[RollupSpec { field: MSG_TYPE, kind: RollupKind::Series { cap: 64 } }],
        )
    }

    fn condense(&self) -> (r: Option<CondenseSpec>) {
        None
    }

    fn has_probe(&self) -> (r: bool) {
        false
    }

    fn probe(&self, bytes: &[u8], ctx: &ParseCtx) -> (r: Option<Confidence>) {
        None
    }

    fn expected_predecessors(&self) -> (r: &'static [ProtocolName]) {
        &[]
    }
}

} // verus!

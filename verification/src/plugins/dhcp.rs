//! DHCP (RFC 2131, RFC 2132): the BOOTP header and the options after it, up to the
//! END option that must close them. The message types of one UDP stream are kept in
//! order, so that the discover, offer, request, acknowledge sequence can be read off.
use vstd::prelude::*;

use crate::bytes::{self, ByteReader, ParseError};
use crate::identity::{
    self, CondenseSpec, Identity, KeyField, RollupKind, RollupSpec, StreamIdentity,
};
use crate::layer::{Confidence, Context, Hint, LayerPlugin, ParseCtx, Parsed, ParsedLayer, RouteId};
use crate::text;
use crate::value::{FieldMap, FieldName, Fields, ProtocolName, Value, ValueView};

verus! {

pub const APP: FieldName = "app";

pub const OP: FieldName = "op";

pub const MSG_TYPE: FieldName = "msg_type";

pub const XID: FieldName = "xid";

pub const CLIENT_MAC: FieldName = "client_mac";

pub const REQUESTED_IP: FieldName = "requested_ip";

pub const SERVER_ID: FieldName = "server_id";

pub const HOSTNAME: FieldName = "hostname";

pub const MAGIC_COOKIE: u32 = 0x6382_5363;

pub const OPTION_PAD: u8 = 0;

pub const OPTION_HOSTNAME: u8 = 12;

pub const OPTION_REQUESTED_IP: u8 = 50;

pub const OPTION_MSG_TYPE: u8 = 53;

pub const OPTION_SERVER_ID: u8 = 54;

pub const OPTION_END: u8 = 255;

/// What the options say; a later option replaces an earlier one.
pub struct Options {
    pub msg_type: Option<u8>,
    pub requested_ip: Option<Seq<u8>>,
    pub server_id: Option<Seq<u8>>,
    pub hostname: Option<Seq<char>>,
}

/// A host name's text: visible ASCII as it is, every other byte as `?`.
pub open spec fn hostname_text(data: Seq<u8>) -> Seq<char> {
    Seq::new(
        data.len(),
        |i: int|
            if text::graphic(data[i]) {
                data[i] as char
            } else {
                '?'
            },
    )
}

/// `o` after the option `code` with content `data`.
pub open spec fn with_option(o: Options, code: u8, data: Seq<u8>) -> Options {
    if code == OPTION_MSG_TYPE && data.len() == 1 {
        Options { msg_type: Some(data[0]), ..o }
    } else if code == OPTION_REQUESTED_IP && data.len() == 4 {
        Options { requested_ip: Some(data), ..o }
    } else if code == OPTION_SERVER_ID && data.len() == 4 {
        Options { server_id: Some(data), ..o }
    } else if code == OPTION_HOSTNAME {
        Options { hostname: Some(hostname_text(data)), ..o }
    } else {
        o
    }
}

/// The options from `p` on, after `o`, and where the END option ends.
pub open spec fn options(b: Seq<u8>, p: int, o: Options) -> Result<(Options, int), ParseError>
    decreases b.len() - p,
{
    if p < 0 || b.len() < p + 1 {
        Err(bytes::short(b, p, 1))
    } else if b[p] == OPTION_PAD {
        options(b, p + 1, o)
    } else if b[p] == OPTION_END {
        Ok((o, p + 1))
    } else if b.len() < p + 2 {
        Err(bytes::short(b, p + 1, 1))
    } else if b.len() < p + 2 + b[p + 1] {
        Err(bytes::short(b, p + 2, b[p + 1] as int))
    } else {
        options(
            b,
            p + 2 + b[p + 1],
            with_option(o, b[p], b.subrange(p + 2, p + 2 + b[p + 1])),
        )
    }
}

pub open spec fn no_options() -> Options {
    Options { msg_type: None, requested_ip: None, server_id: None, hostname: None }
}

/// The client's hardware address: as many of the 16 address bytes as the
/// header says.
pub open spec fn client_mac(b: Seq<u8>) -> Seq<u8> {
    b.subrange(
        28,
        28 + if b[2] < 16 {
            b[2] as int
        } else {
            16
        },
    )
}

pub open spec fn fields(b: Seq<u8>, o: Options, ctx: Context) -> Fields {
    let f = Map::<Seq<char>, ValueView>::empty();
    let f = if ctx.keys() {
        f.insert(APP@, ValueView::Str("dhcp"@))
    } else {
        f
    };
    let f = if ctx.structural() {
        f.insert(OP@, ValueView::U64(b[0] as u64))
    } else {
        f
    };
    let f = if ctx.structural() && o.msg_type is Some {
        f.insert(MSG_TYPE@, ValueView::U64(o.msg_type->0 as u64))
    } else {
        f
    };
    let f = if ctx.structural() {
        f.insert(XID@, ValueView::U64(bytes::be32(b, 4) as u64)).insert(
            CLIENT_MAC@,
            ValueView::Bytes(client_mac(b)),
        )
    } else {
        f
    };
    let f = if ctx.full() && o.requested_ip is Some {
        f.insert(REQUESTED_IP@, ValueView::Bytes(o.requested_ip->0))
    } else {
        f
    };
    let f = if ctx.full() && o.server_id is Some {
        f.insert(SERVER_ID@, ValueView::Bytes(o.server_id->0))
    } else {
        f
    };
    if ctx.full() && o.hostname is Some {
        f.insert(HOSTNAME@, ValueView::Str(o.hostname->0))
    } else {
        f
    }
}

/// The message at the start of `b`.
pub open spec fn message(b: Seq<u8>, ctx: Context) -> Result<Parsed, ParseError> {
    if b.len() < 4 {
        Err(bytes::short(b, b.len() as int, 1))
    } else if b.len() < 28 {
        Err(bytes::short(b, b.len() - b.len() % 4, 4))
    } else if b.len() < 44 {
        Err(bytes::short(b, 28, 16))
    } else if b.len() < 108 {
        Err(bytes::short(b, 44, 64))
    } else if b.len() < 236 {
        Err(bytes::short(b, 108, 128))
    } else if b.len() < 240 {
        Err(bytes::short(b, 236, 4))
    } else if bytes::be32(b, 236) != MAGIC_COOKIE {
        Err(ParseError::Malformed("missing DHCP magic cookie"))
    } else {
        match options(b, 240, no_options()) {
            Err(e) => Err(e),
            Ok((o, end)) => Ok(
                Parsed { header_len: end, fields: fields(b, o, ctx), hint: Hint::Terminal },
            ),
        }
    }
}

fn decode_hostname(data: &[u8]) -> (r: String)
    ensures
        r@ == hostname_text(data@),
{
    let mut out = String::new();
    let n: usize = data.len();
    let mut i: usize = 0;
    while i < n
        invariant
            n == data@.len(),
            i <= n,
            out@ == hostname_text(data@).take(i as int),
        decreases n - i,
    {
        let c: u8 = data[i];
        if c >= 0x21 && c <= 0x7E {
            out.push(c as char);
        } else {
            out.push('?');
        }
        i = i + 1;
        assert(hostname_text(data@).take(i as int) =~= hostname_text(data@).take(i - 1).push(
            hostname_text(data@)[i - 1],
        ));
    }
    assert(hostname_text(data@).take(n as int) =~= hostname_text(data@));
    out
}

struct Found<'a> {
    msg_type: Option<u8>,
    requested_ip: Option<&'a [u8]>,
    server_id: Option<&'a [u8]>,
    hostname: Option<String>,
}

impl<'a> Found<'a> {
    spec fn is(self, o: Options) -> bool {
        &&& self.msg_type == o.msg_type
        &&& match (self.requested_ip, o.requested_ip) {
            (Some(a), Some(b)) => a@ == b,
            (None, None) => true,
            _ => false,
        }
        &&& match (self.server_id, o.server_id) {
            (Some(a), Some(b)) => a@ == b,
            (None, None) => true,
            _ => false,
        }
        &&& match (self.hostname, o.hostname) {
            (Some(a), Some(b)) => a@ == b,
            (None, None) => true,
            _ => false,
        }
    }
}

fn read_options<'a>(r: &mut ByteReader<'a>) -> (res: Result<Found<'a>, ParseError>)
    requires
        old(r).wf(),
    ensures
        final(r).wf(),
        final(r).data == old(r).data,
        match options(old(r).data@, old(r).pos as int, no_options()) {
            Ok((o, end)) => res is Ok && res->Ok_0.is(o) && final(r).pos == end,
            Err(e) => res is Err && res->Err_0 == e,
        },
{
    let mut found = Found { msg_type: None, requested_ip: None, server_id: None, hostname: None };
    let ghost mut o = no_options();
    loop
        invariant
            r.wf(),
            r.data == old(r).data,
            found.is(o),
            options(r.data@, old(r).pos as int, no_options()) == options(r.data@, r.pos as int, o),
        decreases r.data@.len() - r.pos,
    {
        let code: u8 = r.u8()?;
        if code == OPTION_END {
            return Ok(found);
        }
        if code != OPTION_PAD {
            let len: u8 = r.u8()?;
            let data = r.take(len as usize)?;
            if code == OPTION_MSG_TYPE && len == 1 {
                found.msg_type = Some(data[0]);
            } else if code == OPTION_REQUESTED_IP && len == 4 {
                found.requested_ip = Some(data);
            } else if code == OPTION_SERVER_ID && len == 4 {
                found.server_id = Some(data);
            } else if code == OPTION_HOSTNAME {
                found.hostname = Some(decode_hostname(data));
            }
            proof {
                o = with_option(o, code, data@);
            }
        }
    }
}

pub struct Dhcp;

impl LayerPlugin for Dhcp {
    open spec fn spec_parse(&self, bytes: Seq<u8>, ctx: Context) -> Result<Parsed, ParseError> {
        message(bytes, ctx)
    }

    open spec fn spec_name(&self) -> Seq<char> {
        "dhcp"@
    }

    open spec fn spec_claims(&self) -> Seq<RouteId> {
        seq![RouteId::UdpPort(67), RouteId::UdpPort(68)]
    }

    open spec fn spec_identity(&self) -> Option<Identity> {
        identity::conversation_of(
            seq![KeyField { a: APP, b: None }],
            seq![
                RollupSpec { field: MSG_TYPE, kind: RollupKind::Series { cap: 64 } },
                RollupSpec { field: CLIENT_MAC, kind: RollupKind::Accumulate },
            ],
        )
    }

    open spec fn spec_condense(&self) -> Option<CondenseSpec> {
        None
    }

    open spec fn spec_has_probe(&self) -> bool {
        false
    }

    open spec fn spec_probe(&self, bytes: Seq<u8>, ctx: Context) -> Option<u8> {
        None
    }

    open spec fn spec_predecessors(&self) -> Seq<ProtocolName> {
        Seq::empty()
    }

    fn name(&self) -> (r: ProtocolName) {
        "dhcp"
    }

    fn parse(&self, bytes: &[u8], ctx: &ParseCtx) -> (r: Result<ParsedLayer, ParseError>) {
        let mut r = ByteReader::new(bytes);
        let op: u8 = r.u8()?;
        let _htype: u8 = r.u8()?;
        let hlen: u8 = r.u8()?;
        let _hops: u8 = r.u8()?;
        let xid: u32 = r.u32_be()?;
        let _secs_flags: u32 = r.u32_be()?;
        let _ciaddr = r.take(4)?;
        let _yiaddr = r.take(4)?;
        let _siaddr = r.take(4)?;
        let _giaddr = r.take(4)?;
        let chaddr = r.take(16)?;
        let _sname = r.take(64)?;
        let _file = r.take(128)?;
        let cookie: u32 = r.u32_be()?;
        if cookie != MAGIC_COOKIE {
            return Err(ParseError::Malformed("missing DHCP magic cookie"));
        }
        let mac_len: usize = if hlen < 16 {
            hlen as usize
        } else {
            16
        };
        let client_mac = vstd::slice::slice_subrange(chaddr, 0, mac_len);
        assert(client_mac@ =~= self::client_mac(bytes@));
        let found = read_options(&mut r)?;

        let mut fields = FieldMap::new();
        if ctx.keys() {
            fields.insert(APP, Value::from("dhcp"));
        }
        if ctx.structural() {
            fields.insert(OP, Value::U64(op as u64));
            if let Some(t) = found.msg_type {
                fields.insert(MSG_TYPE, Value::U64(t as u64));
            }
            fields.insert(XID, Value::U64(xid as u64));
            fields.insert(CLIENT_MAC, Value::from(client_mac));
        }
        if ctx.full() {
            if let Some(v) = found.requested_ip {
                fields.insert(REQUESTED_IP, Value::from(v));
            }
            if let Some(v) = found.server_id {
                fields.insert(SERVER_ID, Value::from(v));
            }
            if let Some(v) = found.hostname {
                fields.insert(HOSTNAME, Value::Str(v));
            }
        }
        Ok(ParsedLayer { header_len: r.pos, fields, hint: Hint::Terminal })
    }

    fn claims(&self) -> (r: &'static [RouteId]) {
        &[RouteId::UdpPort(67), RouteId::UdpPort(68)]
    }

    fn stream_identity(&self) -> (r: Option<StreamIdentity>) {
        identity::conversation(
            &[KeyField { a: APP, b: None }],
            &[
                RollupSpec { field: MSG_TYPE, kind: RollupKind::Series { cap: 64 } },
                RollupSpec { field: CLIENT_MAC, kind: RollupKind::Accumulate },
            ],
        )
    }

    fn condense(&self) -> (r: Option<CondenseSpec>) {
        None
    }

    fn has_probe(&self) -> (r: bool) {
        false
    }

    fn probe(&self, bytes: &[u8], ctx: &ParseCtx) -> (r: Option<Confidence>) {
        None
    }

    fn expected_predecessors(&self) -> (r: &'static [ProtocolName]) {
        &[]
    }
}

} // verus!

//! Discovery: DHCP, LLDP and CDP.
use vstd::prelude::*;

use crate::bytes::{self, ParseError};
use crate::layer::{Context, Hint, LayerPlugin, Parsed};
use crate::plugins::cdp::{self, Cdp};
use crate::plugins::dhcp::{self, Dhcp};
use crate::plugins::lldp::{self, Lldp};
use crate::plugins::wire::{self, Item};
use crate::text;
use crate::value::{Fields, ValueView};

verus! {

/// DHCP options, each behind its code and its length, up to the END option; a PAD option
/// is a single byte.
pub open spec fn optioned(list: Seq<Item>) -> Seq<u8>
    decreases list.len(),
{
    if list.len() == 0 {
        seq![255]
    } else if list[0].kind == 0 {
        seq![0] + optioned(list.drop_first())
    } else {
        seq![list[0].kind as u8, list[0].value.len() as u8] + list[0].value + optioned(
            list.drop_first(),
        )
    }
}

/// Whether options can stand in a message.
pub open spec fn are_options(list: Seq<Item>) -> bool {
    forall|i: int|
        0 <= i < list.len() ==> 0 <= (#[trigger] list[i]).kind < 255 && list[i].value.len() < 256
            && (list[i].kind == 0 ==> list[i].value.len() == 0)
}

/// What options say after `o`: of each kind the last counts.
pub open spec fn said_by_options(list: Seq<Item>, o: dhcp::Options) -> dhcp::Options {
    dhcp::Options {
        msg_type: match wire::latest(list, 53, Some(1)) {
            Some(v) => Some(v[0]),
            None => o.msg_type,
        },
        requested_ip: match wire::latest(list, 50, Some(4)) {
            Some(v) => Some(v),
            None => o.requested_ip,
        },
        server_id: match wire::latest(list, 54, Some(4)) {
            Some(v) => Some(v),
            None => o.server_id,
        },
        hostname: match wire::latest(list, 12, None) {
            Some(v) => Some(wire::legible(v, false)),
            None => o.hostname,
        },
    }
}

/// Options are read as they were written, in any order and among others.
pub proof fn dhcp_options_are_read(
    list: Seq<Item>,
    o: dhcp::Options,
    head: Seq<u8>,
    rest: Seq<u8>,
)
    requires
        are_options(list),
    ensures
        dhcp::options(head + optioned(list) + rest, head.len() as int, o) == Ok::<
            (dhcp::Options, int),
            ParseError,
        >((said_by_options(list, o), (head.len() + optioned(list).len()) as int)),
    decreases list.len(),
{
    let b = head + optioned(list) + rest;
    let p = head.len() as int;
    if list.len() == 0 {
        assert(b[p] == 255);
    } else {
        let it = list[0];
        let more = list.drop_first();
        assert(0 <= list[0].kind < 255);
        let first = if it.kind == 0 {
            seq![0u8]
        } else {
            seq![it.kind as u8, it.value.len() as u8] + it.value
        };
        assert(optioned(list) =~= first + optioned(more));
        assert(head + first + optioned(more) + rest =~= b);
        assert forall|i: int| 0 <= i < more.len() implies 0 <= (#[trigger] more[i]).kind < 255
            && more[i].value.len() < 256 && (more[i].kind == 0 ==> more[i].value.len() == 0) by {
            assert(more[i] == list[i + 1]);
        }
        assert(b[p] == first[0]);
        if it.kind == 0 {
            dhcp_options_are_read(more, o, head + first, rest);
        } else {
            assert(b[p + 1] == first[1]);
            assert(b.subrange(p + 2, p + 2 + b[p + 1]) =~= it.value);
            let next = dhcp::with_option(o, it.kind as u8, it.value);
            assert(dhcp::hostname_text(it.value) =~= wire::legible(it.value, false));
            dhcp_options_are_read(more, next, head + first, rest);
            assert(said_by_options(more, next) == said_by_options(list, o));
        }
    }
}

/// The parts of a DHCP message.
pub ghost struct DhcpMessage {
    pub op: u8,
    pub htype: u8,
    pub hlen: u8,
    pub hops: u8,
    pub xid: u32,
    pub middle: Seq<u8>,
    pub chaddr: Seq<u8>,
    pub names: Seq<u8>,
    pub options: Seq<Item>,
}

impl DhcpMessage {
    /// Whether every part has room where it stands.
    pub open spec fn fits(self) -> bool {
        &&& self.hlen <= 16
        &&& self.middle.len() == 20
        &&& self.chaddr.len() == 16
        &&& self.names.len() == 192
        &&& are_options(self.options)
    }

    pub open spec fn options_part(self) -> Seq<u8> {
        optioned(self.options)
    }

    pub open spec fn said(self) -> dhcp::Options {
        said_by_options(self.options, dhcp::no_options())
    }

    pub open spec fn parts(self) -> Seq<Seq<u8>> {
        seq![
            seq![self.op],
            seq![self.htype],
            seq![self.hlen],
            seq![self.hops],
            wire::w32(self.xid),
            self.middle,
            self.chaddr,
            self.names,
            wire::w32(0x6382_5363),
            self.options_part(),
        ]
    }

    /// The message as it is on the wire (RFC 2131): seconds, flags and addresses in the
    /// middle, and the cookie ahead of the options.
    pub open spec fn written(self) -> Seq<u8> {
        wire::laid_out(self.parts())
    }

    /// What is to be read of it.
    pub open spec fn told(self, ctx: Context) -> Fields {
        let keys = map![
            "app"@ => ValueView::Str("dhcp"@),
        ];
        let structure = map![
            "op"@ => ValueView::U64(self.op as u64),
            "xid"@ => ValueView::U64(self.xid as u64),
            "client_mac"@ => ValueView::Bytes(self.chaddr.take(self.hlen as int)),
        ];
        let structure = wire::with(structure, self.said().msg_type is Some, "msg_type"@, ValueView::U64(self.said().msg_type->0 as u64));
        let others = Map::<Seq<char>, ValueView>::empty();
        let others = wire::with(others, self.said().requested_ip is Some, "requested_ip"@, ValueView::Bytes(self.said().requested_ip->0));
        let others = wire::with(others, self.said().server_id is Some, "server_id"@, ValueView::Bytes(self.said().server_id->0));
        let others = wire::with(others, self.said().hostname is Some, "hostname"@, ValueView::Str(self.said().hostname->0));
        wire::shown(ctx, keys, structure, others)
    }
}

/// A DHCP message is read as it was written.
pub proof fn dhcp_reads_what_was_written(h: DhcpMessage, payload: Seq<u8>, ctx: Context)
    requires
        h.fits(),
    ensures
        Dhcp.spec_parse(h.written() + payload, ctx) == Ok::<Parsed, ParseError>(
            Parsed { header_len: 240 + h.options_part().len() as int, fields: h.told(ctx), hint: Hint::Terminal },
        ),
{
    let p = h.parts();
    let b = h.written() + payload;
    wire::parts_stand(p, payload);
    assert(p[0].len() == 1);
    assert(wire::offset(p, 1) == 1);
    assert(p[1].len() == 1);
    assert(wire::offset(p, 2) == 2);
    assert(p[2].len() == 1);
    assert(wire::offset(p, 3) == 3);
    assert(p[3].len() == 1);
    assert(wire::offset(p, 4) == 4);
    assert(p[4].len() == 4);
    assert(wire::offset(p, 5) == 8);
    assert(p[5].len() == 20);
    assert(wire::offset(p, 6) == 28);
    assert(p[6].len() == 16);
    assert(wire::offset(p, 7) == 44);
    assert(p[7].len() == 192);
    assert(wire::offset(p, 8) == 236);
    assert(p[8].len() == 4);
    assert(wire::offset(p, 9) == 240);
    assert(p[9] == h.options_part());
    assert(wire::offset(p, 10) == 240 + h.options_part().len());
    wire::read_byte(b, 0, h.op);
    wire::read_byte(b, 1, h.htype);
    wire::read_byte(b, 2, h.hlen);
    wire::read_byte(b, 3, h.hops);
    wire::read32(b, 4, h.xid);
    assert(wire::stands(b, 8, p[5]));
    assert(wire::stands(b, 28, p[6]));
    assert(wire::stands(b, 44, p[7]));
    wire::read32(b, 236, 0x6382_5363);
    assert(wire::stands(b, 240, p[9]));
    let head = b.take(240);
    assert(b =~= head + h.options_part() + payload);
    dhcp_options_are_read(h.options, dhcp::no_options(), head, payload);
    reveal_strlit("msg_type");
    reveal_strlit("xid");
    reveal_strlit("client_mac");
    assert("msg_type"@.len() == 8 && "xid"@.len() == 3 && "client_mac"@.len() == 10);
    assert(dhcp::client_mac(b) =~= h.chaddr.take(h.hlen as int));
    assert(dhcp::fields(b, h.said(), ctx) =~= h.told(ctx));
}

/// An LLDP TLV: seven bits of type, nine bits of length, the value.
#[verifier::opaque]
pub open spec fn lldp_tlv(kind: int, value: Seq<u8>) -> Seq<u8> {
    wire::w16((kind * 0x200 + value.len()) as u16) + value
}

/// TLVs up to the End TLV.
pub open spec fn announced(list: Seq<Item>) -> Seq<u8>
    decreases list.len(),
{
    if list.len() == 0 {
        lldp_tlv(0, Seq::empty())
    } else {
        lldp_tlv(list[0].kind, list[0].value) + announced(list.drop_first())
    }
}

/// Whether TLVs can stand in an announcement.
pub open spec fn are_tlvs(list: Seq<Item>) -> bool {
    forall|i: int|
        0 <= i < list.len() ==> 0 < (#[trigger] list[i]).kind < 128 && list[i].value.len() < 0x200
}

proof fn lemma_tlv(b: Seq<u8>, p: int, kind: int, value: Seq<u8>)
    requires
        0 <= kind < 128,
        value.len() < 0x200,
        wire::stands(b, p, lldp_tlv(kind, value)),
    ensures
        lldp::tlv_short(b, p) is None,
        lldp::tlv_type(b, p) == kind,
        lldp::tlv_len(b, p) == value.len(),
        lldp::tlv_end(b, p) == p + 2 + value.len(),
        lldp::tlv_value(b, p) == value,
        lldp_tlv(kind, value).len() == 2 + value.len(),
{
    reveal(lldp_tlv);
    let w = (kind * 0x200 + value.len()) as u16;
    let t = lldp_tlv(kind, value);
    let s = b.subrange(p, p + t.len());
    assert(b.subrange(p, p + 2) =~= s.subrange(0, 2));
    assert(t.subrange(0, 2) =~= wire::w16(w));
    wire::read16(b, p, w);
    wire::bits16(w);
    assert(w / 0x200 == kind && w % 0x200 == value.len());
    assert(b.subrange(p + 2, p + 2 + value.len()) =~= s.subrange(2, t.len() as int));
    assert(t.subrange(2, t.len() as int) =~= value);
}

/// What TLVs say after `o`: of each kind the first counts. Of the two words of
/// capabilities the second is kept, which says what is enabled.
pub open spec fn said_by_tlvs(list: Seq<Item>, o: lldp::Optional) -> lldp::Optional {
    lldp::Optional {
        system_name: match (o.system_name, wire::earliest(list, 5, None)) {
            (None, Some(v)) => Some(wire::legible(v, true)),
            _ => o.system_name,
        },
        system_description: match (o.system_description, wire::earliest(list, 6, None)) {
            (None, Some(v)) => Some(wire::legible(v, true)),
            _ => o.system_description,
        },
        management_address: match (o.management_address, wire::earliest(list, 8, None)) {
            (None, Some(v)) => Some(v),
            _ => o.management_address,
        },
        capabilities: match (o.capabilities, wire::earliest(list, 7, Some(4))) {
            (None, Some(v)) => Some((v[2] * 256 + v[3]) as u16),
            _ => o.capabilities,
        },
    }
}

proof fn lemma_said(list: Seq<Item>, o: lldp::Optional)
    requires
        are_tlvs(list),
        list.len() > 0,
    ensures
        said_by_tlvs(list.drop_first(), lldp::with_tlv(o, list[0].kind as u8, list[0].value))
            == said_by_tlvs(list, o),
{
    let it = list[0];
    assert(0 < list[0].kind < 128);
    assert(text::display_text(it.value) =~= wire::legible(it.value, true));
}

/// Optional TLVs are read as they were written, in any order and among others.
pub proof fn lldp_tlvs_are_read(
    list: Seq<Item>,
    o: lldp::Optional,
    head: Seq<u8>,
    rest: Seq<u8>,
)
    requires
        are_tlvs(list),
    ensures
        lldp::optional(head + announced(list) + rest, head.len() as int, o) == Ok::<
            (lldp::Optional, int),
            ParseError,
        >((said_by_tlvs(list, o), (head.len() + announced(list).len()) as int)),
    decreases list.len(),
{
    let b = head + announced(list) + rest;
    let p = head.len() as int;
    let none = Seq::<u8>::empty();
    if list.len() == 0 {
        assert(announced(list) == lldp_tlv(0, none));
        assert(b.subrange(p, p + lldp_tlv(0, none).len()) =~= lldp_tlv(0, none));
        lemma_tlv(b, p, 0, none);
    } else {
        let it = list[0];
        let more = list.drop_first();
        assert(0 < list[0].kind < 128);
        let first = lldp_tlv(it.kind, it.value);
        assert(head + first + announced(more) + rest =~= b);
        assert(b.subrange(p, p + first.len()) =~= first);
        lemma_tlv(b, p, it.kind, it.value);
        assert forall|i: int| 0 <= i < more.len() implies 0 < (#[trigger] more[i]).kind < 128
            && more[i].value.len() < 0x200 by {
            assert(more[i] == list[i + 1]);
        }
        let next = lldp::with_tlv(o, it.kind as u8, it.value);
        lemma_said(list, o);
        lldp_tlvs_are_read(more, next, head + first, rest);
    }
}

/// The parts of an LLDP announcement.
pub ghost struct LldpUnit {
    pub chassis_subtype: u8,
    pub chassis: Seq<u8>,
    pub port_subtype: u8,
    pub port: Seq<u8>,
    pub ttl: u16,
    pub optional: Seq<Item>,
}

impl LldpUnit {
    pub open spec fn fits(self) -> bool {
        self.chassis.len() < 511 && self.port.len() < 511 && are_tlvs(self.optional)
    }

    pub open spec fn chassis_part(self) -> Seq<u8> {
        lldp_tlv(1, seq![self.chassis_subtype] + self.chassis)
    }

    pub open spec fn port_part(self) -> Seq<u8> {
        lldp_tlv(2, seq![self.port_subtype] + self.port)
    }

    pub open spec fn ttl_part(self) -> Seq<u8> {
        lldp_tlv(3, wire::w16(self.ttl))
    }

    /// The announcement as it is on the wire (IEEE 802.1AB).
    pub open spec fn written(self) -> Seq<u8> {
        self.chassis_part() + self.port_part() + self.ttl_part() + announced(self.optional)
    }

    pub open spec fn said(self) -> lldp::Optional {
        said_by_tlvs(self.optional, lldp::nothing())
    }

    /// What is to be read of it.
    pub open spec fn told(self, ctx: Context) -> Fields {
        let keys = Map::<Seq<char>, ValueView>::empty();
        let structure = map![
            "chassis_id_subtype"@ => ValueView::U64(self.chassis_subtype as u64),
            "chassis_id"@ => ValueView::Bytes(self.chassis),
            "port_id_subtype"@ => ValueView::U64(self.port_subtype as u64),
            "port_id"@ => ValueView::Bytes(self.port),
            "ttl"@ => ValueView::U64(self.ttl as u64),
        ];
        let o = self.said();
        let others = Map::<Seq<char>, ValueView>::empty();
        let name = ValueView::Str(o.system_name->0);
        let others = wire::with(others, o.system_name is Some, "system_name"@, name);
        let about = ValueView::Str(o.system_description->0);
        let others = wire::with(
            others,
            o.system_description is Some,
            "system_description"@,
            about,
        );
        let at = ValueView::Bytes(o.management_address->0);
        let others = wire::with(others, o.management_address is Some, "management_address"@, at);
        let roles = ValueView::U64(o.capabilities->0 as u64);
        let others = wire::with(others, o.capabilities is Some, "capabilities"@, roles);
        wire::shown(ctx, keys, structure, others)
    }
}

/// An LLDP announcement is read as it was written.
pub proof fn lldp_reads_what_was_written(h: LldpUnit, payload: Seq<u8>, ctx: Context)
    requires
        h.fits(),
    ensures
        Lldp.spec_parse(h.written() + payload, ctx) == Ok::<Parsed, ParseError>(
            Parsed {
                header_len: h.written().len() as int,
                fields: h.told(ctx),
                hint: Hint::Terminal,
            },
        ),
{
    let b = h.written() + payload;
    let at_p = h.chassis_part().len() as int;
    let at_t = at_p + h.port_part().len();
    let end = at_t + h.ttl_part().len();
    let chassis = seq![h.chassis_subtype] + h.chassis;
    let port = seq![h.port_subtype] + h.port;
    lemma_mandatory(h, payload);
    let head = b.take(end);
    assert(head + announced(h.optional) + payload =~= b);
    lldp_tlvs_are_read(h.optional, lldp::nothing(), head, payload);
    assert(chassis.subrange(1, chassis.len() as int) =~= h.chassis);
    assert(port.subrange(1, port.len() as int) =~= h.port);
    assert(lldp::fields(b, chassis, port, h.ttl, h.said(), ctx) =~= h.told(ctx));
    assert(lldp::tail(b, at_p, at_t, ctx) is Ok);
}

/// The three mandatory TLVs.
proof fn lemma_mandatory(h: LldpUnit, payload: Seq<u8>)
    requires
        h.fits(),
    ensures
        ({
            let b = h.written() + payload;
            let at_p = h.chassis_part().len() as int;
            let at_t = at_p + h.port_part().len();
            let chassis = seq![h.chassis_subtype] + h.chassis;
            let port = seq![h.port_subtype] + h.port;
            &&& lldp::tlv_short(b, 0) is None
            &&& lldp::tlv_type(b, 0) == 1
            &&& lldp::tlv_len(b, 0) == chassis.len()
            &&& lldp::tlv_end(b, 0) == at_p
            &&& lldp::tlv_value(b, 0) == chassis
            &&& lldp::tlv_short(b, at_p) is None
            &&& lldp::tlv_type(b, at_p) == 2
            &&& lldp::tlv_len(b, at_p) == port.len()
            &&& lldp::tlv_end(b, at_p) == at_t
            &&& lldp::tlv_value(b, at_p) == port
            &&& lldp::tlv_short(b, at_t) is None
            &&& lldp::tlv_type(b, at_t) == 3
            &&& lldp::tlv_len(b, at_t) == 2
            &&& lldp::tlv_end(b, at_t) == at_t + h.ttl_part().len()
            &&& bytes::be16(b, at_t + 2) == h.ttl
        }),
{
    let b = h.written() + payload;
    let c = h.chassis_part();
    let p = h.port_part();
    let t = h.ttl_part();
    let at_p = c.len() as int;
    let at_t = (c.len() + p.len()) as int;
    assert(b.subrange(0, 0int + c.len()) =~= c);
    assert(b.subrange(at_p, at_p + p.len()) =~= p);
    assert(b.subrange(at_t, at_t + t.len()) =~= t);
    lemma_tlv(b, 0, 1, seq![h.chassis_subtype] + h.chassis);
    lemma_tlv(b, at_p, 2, seq![h.port_subtype] + h.port);
    lemma_tlv(b, at_t, 3, wire::w16(h.ttl));
    wire::read16(b, at_t + 2, h.ttl);
}

/// CDP TLVs: type, length with these four bytes, value.
pub open spec fn advertised(list: Seq<Item>) -> Seq<u8>
    decreases list.len(),
{
    if list.len() == 0 {
        Seq::empty()
    } else {
        wire::w16(list[0].kind as u16) + wire::w16((list[0].value.len() + 4) as u16)
            + list[0].value + advertised(list.drop_first())
    }
}

/// Whether TLVs can stand in an announcement.
pub open spec fn are_wide_tlvs(list: Seq<Item>) -> bool {
    forall|i: int|
        0 <= i < list.len() ==> 0 <= (#[trigger] list[i]).kind < 0x1_0000 && list[i].value.len()
            < 65532
}

/// The first address in the last address list that has one.
pub open spec fn latest_address(list: Seq<Item>) -> Option<Seq<u8>>
    decreases list.len(),
{
    if list.len() == 0 {
        None
    } else if latest_address(list.drop_first()) is Some {
        latest_address(list.drop_first())
    } else if list[0].kind == 2 {
        cdp::first_address(list[0].value)
    } else {
        None
    }
}

/// What TLVs say after `t`: of each kind the last counts.
pub open spec fn said_by_wide_tlvs(list: Seq<Item>, t: cdp::Tlvs) -> cdp::Tlvs {
    cdp::Tlvs {
        device_id: match wire::latest(list, 1, None) {
            Some(v) => Some(wire::legible(v, true)),
            None => t.device_id,
        },
        port_id: match wire::latest(list, 3, None) {
            Some(v) => Some(wire::legible(v, true)),
            None => t.port_id,
        },
        platform: match wire::latest(list, 6, None) {
            Some(v) => Some(wire::legible(v, true)),
            None => t.platform,
        },
        capabilities: match wire::latest(list, 4, Some(4)) {
            Some(v) => Some(
                (v[0] * 0x100_0000 + v[1] * 0x1_0000 + v[2] * 0x100 + v[3]) as u32,
            ),
            None => t.capabilities,
        },
        native_vlan: match wire::latest(list, 10, Some(2)) {
            Some(v) => Some((v[0] * 0x100 + v[1]) as u16),
            None => t.native_vlan,
        },
        ip_address: match latest_address(list) {
            Some(v) => Some(v),
            None => t.ip_address,
        },
    }
}

/// Whether an announcement ends here: with its bytes, or with zero padding.
pub open spec fn is_end(rest: Seq<u8>) -> bool {
    rest.len() < 4 || (rest[0] == 0 && rest[1] == 0 && rest[2] == 0 && rest[3] == 0)
}

/// TLVs are read as they were written, in any order and among others.
pub proof fn cdp_tlvs_are_read(list: Seq<Item>, t: cdp::Tlvs, head: Seq<u8>, rest: Seq<u8>)
    requires
        are_wide_tlvs(list),
        is_end(rest),
    ensures
        cdp::tlvs(head + advertised(list) + rest, head.len() as int, t) == Ok::<
            (cdp::Tlvs, int),
            ParseError,
        >((said_by_wide_tlvs(list, t), (head.len() + advertised(list).len()) as int)),
    decreases list.len(),
{
    let b = head + advertised(list) + rest;
    let p = head.len() as int;
    if list.len() == 0 {
        assert(b =~= head + rest);
        if rest.len() >= 4 {
            assert(b[p] == rest[0] && b[p + 1] == rest[1] && b[p + 2] == rest[2] && b[p + 3]
                == rest[3]);
        }
    } else {
        let it = list[0];
        let more = list.drop_first();
        assert(0 <= list[0].kind < 0x1_0000);
        let n = (it.value.len() + 4) as u16;
        let first = wire::w16(it.kind as u16) + wire::w16(n) + it.value;
        assert(head + first + advertised(more) + rest =~= b);
        assert(b.subrange(p, p + 2) =~= wire::w16(it.kind as u16));
        assert(b.subrange(p + 2, p + 4) =~= wire::w16(n));
        wire::read16(b, p, it.kind as u16);
        wire::read16(b, p + 2, n);
        assert(b.subrange(p + 4, p + n) =~= it.value);
        assert forall|i: int| 0 <= i < more.len() implies 0 <= (#[trigger] more[i]).kind < 0x1_0000
            && more[i].value.len() < 65532 by {
            assert(more[i] == list[i + 1]);
        }
        let next = cdp::with_tlv(t, it.kind as u16, it.value);
        assert(text::display_text(it.value) =~= wire::legible(it.value, true));
        cdp_tlvs_are_read(more, next, head + first, rest);
        assert(said_by_wide_tlvs(more, next) == said_by_wide_tlvs(list, t));
    }
}

/// The first address of an address list is read as it was written: behind the count, the
/// protocol's type, length and number, and the address's length.
pub proof fn cdp_addresses_are_read(
    count: u32,
    kind: u8,
    protocol: Seq<u8>,
    address: Seq<u8>,
    rest: Seq<u8>,
)
    requires
        count > 0,
        protocol.len() < 256,
        address.len() < 0x1_0000,
    ensures
        cdp::first_address(
            wire::laid_out(
                seq![
                    wire::w32(count),
                    seq![kind],
                    seq![protocol.len() as u8],
                    protocol,
                    wire::w16(address.len() as u16),
                    address,
                ],
            ) + rest,
        ) == Some(address),
{
    let p = seq![
        wire::w32(count),
        seq![kind],
        seq![protocol.len() as u8],
        protocol,
        wire::w16(address.len() as u16),
        address,
    ];
    let v = wire::laid_out(p) + rest;
    wire::parts_stand(p, rest);
    assert(p[0].len() == 4 && p[1].len() == 1 && p[2].len() == 1 && p[3] == protocol
        && p[4].len() == 2 && p[5] == address);
    assert(wire::offset(p, 1) == 4);
    assert(wire::offset(p, 2) == 5);
    assert(wire::offset(p, 3) == 6);
    assert(wire::offset(p, 4) == 6 + protocol.len());
    assert(wire::offset(p, 5) == 8 + protocol.len());
    wire::read32(v, 0, count);
    wire::read_byte(v, 5, protocol.len() as u8);
    wire::read16(v, (6 + protocol.len()) as int, address.len() as u16);
    assert(wire::stands(v, (8 + protocol.len()) as int, p[5]));
}

/// The parts of a CDP announcement.
pub ghost struct CdpUnit {
    pub version: u8,
    pub ttl: u8,
    pub checksum: u16,
    pub tlvs: Seq<Item>,
}

impl CdpUnit {
    /// Whether every part has room where it stands.
    pub open spec fn fits(self) -> bool {
        &&& are_wide_tlvs(self.tlvs)
        &&& wire::latest(self.tlvs, 1, None) is Some
    }

    pub open spec fn tlvs_part(self) -> Seq<u8> {
        advertised(self.tlvs)
    }

    pub open spec fn said(self) -> cdp::Tlvs {
        said_by_wide_tlvs(self.tlvs, cdp::no_tlvs())
    }

    pub open spec fn parts(self) -> Seq<Seq<u8>> {
        seq![
            seq![self.version],
            seq![self.ttl],
            wire::w16(self.checksum),
            self.tlvs_part(),
        ]
    }

    /// The announcement as it is on the wire.
    pub open spec fn written(self) -> Seq<u8> {
        wire::laid_out(self.parts())
    }

    /// What is to be read of it.
    pub open spec fn told(self, ctx: Context) -> Fields {
        let keys = Map::<Seq<char>, ValueView>::empty();
        let structure = map![
            "version"@ => ValueView::U64(self.version as u64),
            "ttl"@ => ValueView::U64(self.ttl as u64),
            "checksum"@ => ValueView::U64(self.checksum as u64),
        ];
        let others = Map::<Seq<char>, ValueView>::empty();
        let others = wire::with(others, self.said().device_id is Some, "device_id"@, ValueView::Str(self.said().device_id->0));
        let others = wire::with(others, self.said().port_id is Some, "port_id"@, ValueView::Str(self.said().port_id->0));
        let others = wire::with(others, self.said().platform is Some, "platform"@, ValueView::Str(self.said().platform->0));
        let others = wire::with(others, self.said().capabilities is Some, "capabilities"@, ValueView::U64(self.said().capabilities->0 as u64));
        let others = wire::with(others, self.said().native_vlan is Some, "native_vlan"@, ValueView::U64(self.said().native_vlan->0 as u64));
        let others = wire::with(others, self.said().ip_address is Some, "ip_address"@, ValueView::Bytes(self.said().ip_address->0));
        wire::shown(ctx, keys, structure, others)
    }
}

/// A CDP announcement is read as it was written.
pub proof fn cdp_reads_what_was_written(h: CdpUnit, payload: Seq<u8>, ctx: Context)
    requires
        h.fits(),
        is_end(payload),
    ensures
        Cdp.spec_parse(h.written() + payload, ctx) == Ok::<Parsed, ParseError>(
            Parsed { header_len: 4 + h.tlvs_part().len() as int, fields: h.told(ctx), hint: Hint::Terminal },
        ),
{
    let p = h.parts();
    let b = h.written() + payload;
    wire::parts_stand(p, payload);
    assert(p[0].len() == 1);
    assert(wire::offset(p, 1) == 1);
    assert(p[1].len() == 1);
    assert(wire::offset(p, 2) == 2);
    assert(p[2].len() == 2);
    assert(wire::offset(p, 3) == 4);
    assert(p[3] == h.tlvs_part());
    assert(wire::offset(p, 4) == 4 + h.tlvs_part().len());
    wire::read_byte(b, 0, h.version);
    wire::read_byte(b, 1, h.ttl);
    wire::read16(b, 2, h.checksum);
    assert(wire::stands(b, 4, p[3]));
    let head = b.take(4);
    assert(b =~= head + h.tlvs_part() + payload);
    cdp_tlvs_are_read(h.tlvs, cdp::no_tlvs(), head, payload);
    assert(cdp::fields(b, h.said(), ctx) =~= h.told(ctx));
}

} // verus!

//! Routers, controllers and services: HSRP, BFD, DNP3, EtherNet/IP, AMQP and HTTP/2.
use vstd::prelude::*;

use crate::bytes::ParseError;
use crate::flows::key;
use crate::identity::KeyField;
use crate::layer::{Context, Hint, LayerPlugin, Parsed};
use crate::plugins::amqp::{self, Amqp};
use crate::plugins::bfd::{self, Bfd};
use crate::plugins::dnp3::{self, Dnp3};
use crate::plugins::enip::{self, Enip};
use crate::plugins::hsrp::{self, Hsrp};
use crate::plugins::http2::{self, Http2};
use crate::plugins::wire;
use crate::value::{Fields, ValueView};

verus! {

/// The parts of an HSRP message.
pub ghost struct HsrpMessage {
    pub opcode: u8,
    pub state: u8,
    pub hellotime: u8,
    pub holdtime: u8,
    pub priority: u8,
    pub group: u8,
    pub reserved: u8,
    pub auth_data: Seq<u8>,
    pub virtual_ip: Seq<u8>,
}

impl HsrpMessage {
    /// Whether every part has room where it stands.
    pub open spec fn fits(self) -> bool {
        &&& self.auth_data.len() == 8
        &&& self.virtual_ip.len() == 4
    }

    pub open spec fn parts(self) -> Seq<Seq<u8>> {
        seq![
            seq![0],
            seq![self.opcode],
            seq![self.state],
            seq![self.hellotime],
            seq![self.holdtime],
            seq![self.priority],
            seq![self.group],
            seq![self.reserved],
            self.auth_data,
            self.virtual_ip,
        ]
    }

    /// The message as it is on the wire (RFC 2281).
    pub open spec fn written(self) -> Seq<u8> {
        wire::laid_out(self.parts())
    }

    /// What is to be read of it.
    pub open spec fn told(self, ctx: Context) -> Fields {
        let keys = map![
            "group"@ => ValueView::U64(self.group as u64),
        ];
        let structure = map![
            "version"@ => ValueView::U64(0),
            "opcode"@ => ValueView::U64(self.opcode as u64),
            "state"@ => ValueView::U64(self.state as u64),
            "priority"@ => ValueView::U64(self.priority as u64),
            "hellotime"@ => ValueView::U64(self.hellotime as u64),
            "holdtime"@ => ValueView::U64(self.holdtime as u64),
        ];
        let others = map![
            "virtual_ip"@ => ValueView::Bytes(self.virtual_ip),
            "auth_data"@ => ValueView::Bytes(self.auth_data),
        ];
        wire::shown(ctx, keys, structure, others)
    }
}

/// An HSRP message is read as it was written.
pub proof fn hsrp_reads_what_was_written(h: HsrpMessage, payload: Seq<u8>, ctx: Context)
    requires
        h.fits(),
    ensures
        Hsrp.spec_parse(h.written() + payload, ctx) == Ok::<Parsed, ParseError>(
            Parsed { header_len: 20, fields: h.told(ctx), hint: Hint::Terminal },
        ),
{
    let p = h.parts();
    let b = h.written() + payload;
    wire::parts_stand(p, payload);
    assert(p[0].len() == 1);
    assert(wire::offset(p, 1) == 1);
    assert(p[1].len() == 1);
    assert(wire::offset(p, 2) == 2);
    assert(p[2].len() == 1);
    assert(wire::offset(p, 3) == 3);
    assert(p[3].len() == 1);
    assert(wire::offset(p, 4) == 4);
    assert(p[4].len() == 1);
    assert(wire::offset(p, 5) == 5);
    assert(p[5].len() == 1);
    assert(wire::offset(p, 6) == 6);
    assert(p[6].len() == 1);
    assert(wire::offset(p, 7) == 7);
    assert(p[7].len() == 1);
    assert(wire::offset(p, 8) == 8);
    assert(p[8].len() == 8);
    assert(wire::offset(p, 9) == 16);
    assert(p[9].len() == 4);
    assert(wire::offset(p, 10) == 20);
    wire::read_byte(b, 0, 0);
    wire::read_byte(b, 1, h.opcode);
    wire::read_byte(b, 2, h.state);
    wire::read_byte(b, 3, h.hellotime);
    wire::read_byte(b, 4, h.holdtime);
    wire::read_byte(b, 5, h.priority);
    wire::read_byte(b, 6, h.group);
    wire::read_byte(b, 7, h.reserved);
    assert(wire::stands(b, 8, p[8]));
    assert(wire::stands(b, 16, p[9]));
    assert(hsrp::fields(b, ctx) =~= h.told(ctx));
}

/// Two such headers are of one conversation exactly if they have the same
/// qualifier.
pub proof fn hsrp_tells_conversations(h: HsrpMessage, g: HsrpMessage, ctx: Context)
    requires
        ctx.depth is Keys,
        h.fits(),
        g.fits(),
    ensures
        wire::is_keyed_by(Hsrp.spec_identity(), (KeyField { a: "group", b: None })),
        wire::one_conversation(Hsrp.spec_identity()->0, h.told(ctx), g.told(ctx)) <==> h.group == g.group,
{
    let kf = KeyField { a: "group", b: None };
    let identity = Hsrp.spec_identity()->0;
    assert(identity.key =~= seq![kf]);
    wire::qualifiers_tell_conversations(identity, kf, h.told(ctx), g.told(ctx));
}

/// The parts of a BFD control packet; the third-lowest flag announces an authentication
/// section.
pub ghost struct BfdPacket {
    pub diag: u8,
    pub state: u8,
    pub flags: u8,
    pub detect_mult: u8,
    pub my: u32,
    pub your: u32,
    pub tx: u32,
    pub rx: u32,
    pub echo: u32,
    pub auth: Seq<u8>,
}

impl BfdPacket {
    /// Whether every part has room where it stands.
    pub open spec fn fits(self) -> bool {
        &&& self.diag < 32
        &&& self.state < 4
        &&& self.flags < 64
        &&& self.detect_mult > 0
        &&& self.my > 0
        &&& self.auth.len() <= 231
        &&& self.flags / 4 % 2 == 1 ==> self.auth.len() >= 2
    }

    pub open spec fn parts(self) -> Seq<Seq<u8>> {
        seq![
            seq![(32 + self.diag) as u8],
            seq![(self.state * 64 + self.flags) as u8],
            seq![self.detect_mult],
            seq![(24 + self.auth.len()) as u8],
            wire::w32(self.my),
            wire::w32(self.your),
            wire::w32(self.tx),
            wire::w32(self.rx),
            wire::w32(self.echo),
            self.auth,
        ]
    }

    /// The packet as it is on the wire (RFC 5880).
    pub open spec fn written(self) -> Seq<u8> {
        wire::laid_out(self.parts())
    }

    /// What is to be read of it.
    pub open spec fn told(self, ctx: Context) -> Fields {
        let keys = map![
            "my_discriminator"@ => ValueView::U64(self.my as u64),
            "your_discriminator"@ => ValueView::U64(self.your as u64),
        ];
        let structure = map![
            "version"@ => ValueView::U64(1),
            "diag"@ => ValueView::U64(self.diag as u64),
            "state"@ => ValueView::U64(self.state as u64),
            "flags"@ => ValueView::U64(self.flags as u64),
            "detect_mult"@ => ValueView::U64(self.detect_mult as u64),
            "length"@ => ValueView::U64((24 + self.auth.len()) as u64),
        ];
        let others = map![
            "desired_min_tx"@ => ValueView::U64(self.tx as u64),
            "required_min_rx"@ => ValueView::U64(self.rx as u64),
            "required_min_echo_rx"@ => ValueView::U64(self.echo as u64),
        ];
        wire::shown(ctx, keys, structure, others)
    }
}

/// A BFD packet is read as it was written.
pub proof fn bfd_reads_what_was_written(h: BfdPacket, payload: Seq<u8>, ctx: Context)
    requires
        h.fits(),
    ensures
        Bfd.spec_parse(h.written() + payload, ctx) == Ok::<Parsed, ParseError>(
            Parsed { header_len: 24 + h.auth.len() as int, fields: h.told(ctx), hint: Hint::Terminal },
        ),
{
    let p = h.parts();
    let b = h.written() + payload;
    wire::parts_stand(p, payload);
    assert(p[0].len() == 1);
    assert(wire::offset(p, 1) == 1);
    assert(p[1].len() == 1);
    assert(wire::offset(p, 2) == 2);
    assert(p[2].len() == 1);
    assert(wire::offset(p, 3) == 3);
    assert(p[3].len() == 1);
    assert(wire::offset(p, 4) == 4);
    assert(p[4].len() == 4);
    assert(wire::offset(p, 5) == 8);
    assert(p[5].len() == 4);
    assert(wire::offset(p, 6) == 12);
    assert(p[6].len() == 4);
    assert(wire::offset(p, 7) == 16);
    assert(p[7].len() == 4);
    assert(wire::offset(p, 8) == 20);
    assert(p[8].len() == 4);
    assert(wire::offset(p, 9) == 24);
    assert(p[9] == h.auth);
    assert(wire::offset(p, 10) == 24 + h.auth.len());
    wire::read_byte(b, 0, (32 + h.diag) as u8);
    wire::read_byte(b, 1, (h.state * 64 + h.flags) as u8);
    wire::read_byte(b, 2, h.detect_mult);
    wire::read_byte(b, 3, (24 + h.auth.len()) as u8);
    wire::read32(b, 4, h.my);
    wire::read32(b, 8, h.your);
    wire::read32(b, 12, h.tx);
    wire::read32(b, 16, h.rx);
    wire::read32(b, 20, h.echo);
    assert(wire::stands(b, 24, p[9]));
    wire::bits8(b[0]);
    wire::bits8(b[1]);
    wire::bits8(h.flags);
    assert(b[1] & 0x3F == h.flags);
    assert(bfd::fields(b, ctx) =~= h.told(ctx));
}

/// Two such headers are of one conversation exactly if they have the same two endpoints, in
/// either direction; and the two directions differ.
pub proof fn bfd_tells_conversations(h: BfdPacket, g: BfdPacket, ctx: Context)
    requires
        ctx.depth is Keys,
        h.fits(),
        g.fits(),
    ensures
        wire::is_keyed_by(Bfd.spec_identity(), (KeyField { a: "my_discriminator", b: Some("your_discriminator") })),
        wire::one_conversation(Bfd.spec_identity()->0, h.told(ctx), g.told(ctx)) <==> ((h.my == g.my && h.your == g.your) || (h.my == g.your && h.your == g.my)),
        h.my == g.your && h.your == g.my && h.my != h.your ==> key::key_of(
            Bfd.spec_identity()->0,
            h.told(ctx),
        )->Ok_0.1 == key::key_of(Bfd.spec_identity()->0, g.told(ctx))->Ok_0.1.flipped(),
{
    let kf = KeyField { a: "my_discriminator", b: Some("your_discriminator") };
    reveal_strlit("my_discriminator");
    reveal_strlit("your_discriminator");
    assert("my_discriminator"@.len() != "your_discriminator"@.len());
    let identity = Bfd.spec_identity()->0;
    assert(identity.key =~= seq![kf]);
    wire::pairs_tell_conversations(identity, kf, h.told(ctx), g.told(ctx));
}

/// The parts of a DNP3 frame; with enough user data the third byte of it is the function.
pub ghost struct Dnp3Frame {
    pub length: u8,
    pub control: u8,
    pub destination: u16,
    pub source: u16,
    pub crc: u16,
    pub user: Seq<u8>,
}

impl Dnp3Frame {
    /// Whether every part has room where it stands.
    pub open spec fn fits(self) -> bool {
        &&& self.length >= 5
        &&& self.length >= 8 ==> self.user.len() == 3
        &&& self.length < 8 ==> self.user.len() == 0
    }

    pub open spec fn parts(self) -> Seq<Seq<u8>> {
        seq![
            seq![0x05],
            seq![0x64],
            seq![self.length],
            seq![self.control],
            wire::l16(self.destination),
            wire::l16(self.source),
            wire::w16(self.crc),
            self.user,
        ]
    }

    /// The frame as it is on the wire (IEEE 1815), up to its function.
    pub open spec fn written(self) -> Seq<u8> {
        wire::laid_out(self.parts())
    }

    /// What is to be read of it.
    pub open spec fn told(self, ctx: Context) -> Fields {
        let keys = map![
            "source"@ => ValueView::U64(self.source as u64),
            "destination"@ => ValueView::U64(self.destination as u64),
        ];
        let structure = map![
            "start_bytes"@ => ValueView::U64(0x0564),
            "length"@ => ValueView::U64(self.length as u64),
            "control"@ => ValueView::U64(self.control as u64),
        ];
        let others = Map::<Seq<char>, ValueView>::empty();
        let others = wire::with(others, self.length >= 8, "function_code"@, ValueView::U64(self.user[2] as u64));
        wire::shown(ctx, keys, structure, others)
    }
}

/// A DNP3 frame is read as it was written.
pub proof fn dnp3_reads_what_was_written(h: Dnp3Frame, payload: Seq<u8>, ctx: Context)
    requires
        h.fits(),
    ensures
        Dnp3.spec_parse(h.written() + payload, ctx) == Ok::<Parsed, ParseError>(
            Parsed { header_len: 10 + h.user.len() as int, fields: h.told(ctx), hint: Hint::Terminal },
        ),
{
    let p = h.parts();
    let b = h.written() + payload;
    wire::parts_stand(p, payload);
    assert(p[0].len() == 1);
    assert(wire::offset(p, 1) == 1);
    assert(p[1].len() == 1);
    assert(wire::offset(p, 2) == 2);
    assert(p[2].len() == 1);
    assert(wire::offset(p, 3) == 3);
    assert(p[3].len() == 1);
    assert(wire::offset(p, 4) == 4);
    assert(p[4].len() == 2);
    assert(wire::offset(p, 5) == 6);
    assert(p[5].len() == 2);
    assert(wire::offset(p, 6) == 8);
    assert(p[6].len() == 2);
    assert(wire::offset(p, 7) == 10);
    assert(p[7] == h.user);
    assert(wire::offset(p, 8) == 10 + h.user.len());
    wire::read_byte(b, 0, 0x05);
    wire::read_byte(b, 1, 0x64);
    wire::read_byte(b, 2, h.length);
    wire::read_byte(b, 3, h.control);
    wire::read16_le(b, 4, h.destination);
    wire::read16_le(b, 6, h.source);
    wire::read16(b, 8, h.crc);
    assert(wire::stands(b, 10, p[7]));
    if h.length >= 8 {
        assert(b.subrange(10, 13)[2] == h.user[2]);
        assert(b[12] == b.subrange(10, 13)[2]);
    }
    assert(dnp3::fields(b, ctx) =~= h.told(ctx));
}

/// Two such headers are of one conversation exactly if they have the same two endpoints, in
/// either direction; and the two directions differ.
pub proof fn dnp3_tells_conversations(h: Dnp3Frame, g: Dnp3Frame, ctx: Context)
    requires
        ctx.depth is Keys,
        h.fits(),
        g.fits(),
    ensures
        wire::is_keyed_by(Dnp3.spec_identity(), (KeyField { a: "source", b: Some("destination") })),
        wire::one_conversation(Dnp3.spec_identity()->0, h.told(ctx), g.told(ctx)) <==> ((h.source == g.source && h.destination == g.destination) || (h.source == g.destination && h.destination == g.source)),
        h.source == g.destination && h.destination == g.source && h.source != h.destination ==> key::key_of(
            Dnp3.spec_identity()->0,
            h.told(ctx),
        )->Ok_0.1 == key::key_of(Dnp3.spec_identity()->0, g.told(ctx))->Ok_0.1.flipped(),
{
    let kf = KeyField { a: "source", b: Some("destination") };
    reveal_strlit("source");
    reveal_strlit("destination");
    assert("source"@.len() != "destination"@.len());
    let identity = Dnp3.spec_identity()->0;
    assert(identity.key =~= seq![kf]);
    wire::pairs_tell_conversations(identity, kf, h.told(ctx), g.told(ctx));
}

/// The parts of an EtherNet/IP message.
pub ghost struct EnipMessage {
    pub command: u16,
    pub session: u32,
    pub status: u32,
    pub context: Seq<u8>,
    pub data: Seq<u8>,
}

impl EnipMessage {
    /// Whether every part has room where it stands.
    pub open spec fn fits(self) -> bool {
        &&& self.context.len() == 8
        &&& self.data.len() < 0x1_0000
    }

    /// The CIP service that the data of a request or reply leads to.
    pub open spec fn service(self) -> Option<u8> {
        if self.command == 0x6F || self.command == 0x70 {
            enip::leading_service(self.data)
        } else {
            None
        }
    }

    pub open spec fn parts(self) -> Seq<Seq<u8>> {
        seq![
            wire::l16(self.command),
            wire::l16(self.data.len() as u16),
            wire::l32(self.session),
            wire::l32(self.status),
            self.context,
            wire::l32(0),
            self.data,
        ]
    }

    /// The message as it is on the wire.
    pub open spec fn written(self) -> Seq<u8> {
        wire::laid_out(self.parts())
    }

    /// What is to be read of it.
    pub open spec fn told(self, ctx: Context) -> Fields {
        let keys = map![
            "session_handle"@ => ValueView::U64(self.session as u64),
        ];
        let structure = map![
            "command"@ => ValueView::U64(self.command as u64),
            "length"@ => ValueView::U64(self.data.len() as u64),
            "status"@ => ValueView::U64(self.status as u64),
        ];
        let others = Map::<Seq<char>, ValueView>::empty();
        let others = wire::with(others, self.service() is Some, "cip_service"@, ValueView::U64(self.service()->0 as u64));
        wire::shown(ctx, keys, structure, others)
    }
}

/// An EtherNet/IP message is read as it was written.
pub proof fn enip_reads_what_was_written(h: EnipMessage, payload: Seq<u8>, ctx: Context)
    requires
        h.fits(),
    ensures
        Enip.spec_parse(h.written() + payload, ctx) == Ok::<Parsed, ParseError>(
            Parsed { header_len: 24 + h.data.len() as int, fields: h.told(ctx), hint: Hint::Terminal },
        ),
{
    let p = h.parts();
    let b = h.written() + payload;
    wire::parts_stand(p, payload);
    assert(p[0].len() == 2);
    assert(wire::offset(p, 1) == 2);
    assert(p[1].len() == 2);
    assert(wire::offset(p, 2) == 4);
    assert(p[2].len() == 4);
    assert(wire::offset(p, 3) == 8);
    assert(p[3].len() == 4);
    assert(wire::offset(p, 4) == 12);
    assert(p[4].len() == 8);
    assert(wire::offset(p, 5) == 20);
    assert(p[5].len() == 4);
    assert(wire::offset(p, 6) == 24);
    assert(p[6] == h.data);
    assert(wire::offset(p, 7) == 24 + h.data.len());
    wire::read16_le(b, 0, h.command);
    wire::read16_le(b, 2, h.data.len() as u16);
    wire::read32_le(b, 4, h.session);
    wire::read32_le(b, 8, h.status);
    assert(wire::stands(b, 12, p[4]));
    wire::read32_le(b, 20, 0);
    assert(wire::stands(b, 24, p[6]));
    assert(b.subrange(24, 24 + enip::length(b)) =~= h.data);
    assert(enip::fields(b, ctx) =~= h.told(ctx));
}

/// Two such headers are of one conversation exactly if they have the same
/// qualifier.
pub proof fn enip_tells_conversations(h: EnipMessage, g: EnipMessage, ctx: Context)
    requires
        ctx.depth is Keys,
        h.fits(),
        g.fits(),
    ensures
        wire::is_keyed_by(Enip.spec_identity(), (KeyField { a: "session_handle", b: None })),
        wire::one_conversation(Enip.spec_identity()->0, h.told(ctx), g.told(ctx)) <==> h.session == g.session,
{
    let kf = KeyField { a: "session_handle", b: None };
    let identity = Enip.spec_identity()->0;
    assert(identity.key =~= seq![kf]);
    wire::qualifiers_tell_conversations(identity, kf, h.told(ctx), g.told(ctx));
}

/// An item of the common packet format: a type and some data.
pub ghost struct Item {
    pub kind: u16,
    pub data: Seq<u8>,
}

/// Items one after the other, each behind its type and length.
pub open spec fn itemized(items: Seq<Item>) -> Seq<u8>
    decreases items.len(),
{
    if items.len() == 0 {
        Seq::empty()
    } else {
        wire::l16(items[0].kind) + wire::l16(items[0].data.len() as u16) + items[0].data
            + itemized(items.drop_first())
    }
}

/// The service that some items lead to: the first byte of the first item with an
/// unconnected message or, behind a sequence count of two bytes, with a connected one.
pub open spec fn service_of(items: Seq<Item>) -> Option<u8>
    decreases items.len(),
{
    if items.len() == 0 {
        None
    } else if items[0].kind == 0xB2 {
        if items[0].data.len() > 0 {
            Some(items[0].data[0])
        } else {
            None
        }
    } else if items[0].kind == 0xB1 {
        if items[0].data.len() > 2 {
            Some(items[0].data[2])
        } else {
            None
        }
    } else {
        service_of(items.drop_first())
    }
}

proof fn lemma_items(items: Seq<Item>, head: Seq<u8>)
    requires
        forall|i: int| 0 <= i < items.len() ==> (#[trigger] items[i]).data.len() < 0x1_0000,
    ensures
        enip::service_in(head + itemized(items), head.len() as int, items.len() as int)
            == service_of(items),
    decreases items.len(),
{
    if items.len() > 0 {
        let d = head + itemized(items);
        let p = head.len() as int;
        let rest = items.drop_first();
        let it = items[0];
        let n = it.data.len() as int;
        let first = wire::l16(it.kind) + wire::l16(n as u16) + it.data;
        assert(itemized(items) == first + itemized(rest));
        assert(d =~= head + first + itemized(rest));
        assert forall|i: int| 0 <= i < rest.len() implies (#[trigger] rest[i]).data.len()
            < 0x1_0000 by {
            assert(rest[i] == items[i + 1]);
        }
        lemma_items(rest, head + first);
        assert(d.subrange(p, p + 2) =~= wire::l16(it.kind));
        assert(d.subrange(p + 2, p + 4) =~= wire::l16(n as u16));
        wire::read16_le(d, p, it.kind);
        wire::read16_le(d, p + 2, n as u16);
        assert(forall|i: int| 0 <= i < n ==> d[p + 4 + i] == #[trigger] it.data[i]);
        if n > 0 {
            assert(d[p + 4] == it.data[0]);
        }
        if n > 2 {
            assert(d[p + 6] == it.data[2]);
        }
    }
}

/// The service is found behind any items of other types.
pub proof fn enip_services_are_found(interface: u32, timeout: u16, items: Seq<Item>)
    requires
        items.len() < 0x1_0000,
        forall|i: int| 0 <= i < items.len() ==> (#[trigger] items[i]).data.len() < 0x1_0000,
    ensures
        enip::leading_service(
            wire::l32(interface) + wire::l16(timeout) + wire::l16(items.len() as u16) + itemized(
                items,
            ),
        ) == service_of(items),
{
    let head = wire::l32(interface) + wire::l16(timeout) + wire::l16(items.len() as u16);
    let d = head + itemized(items);
    assert(d.subrange(6, 8) =~= wire::l16(items.len() as u16));
    wire::read16_le(d, 6, items.len() as u16);
    lemma_items(items, head);
}

/// The parts of an AMQP frame other than a method.
pub ghost struct AmqpFrame {
    pub kind: u8,
    pub channel: u16,
    pub payload: Seq<u8>,
}

impl AmqpFrame {
    /// Whether every part has room where it stands.
    pub open spec fn fits(self) -> bool {
        &&& self.kind == 2 || self.kind == 3 || self.kind == 8
        &&& self.payload.len() <= u32::MAX
    }

    /// The name of the frame's type.
    pub open spec fn name(self) -> Seq<char> {
        if self.kind == 2 {
            "header"@
        } else if self.kind == 3 {
            "body"@
        } else {
            "heartbeat"@
        }
    }

    pub open spec fn parts(self) -> Seq<Seq<u8>> {
        seq![
            seq![self.kind],
            wire::w16(self.channel),
            wire::w32(self.payload.len() as u32),
            self.payload,
            seq![0xCE],
        ]
    }

    /// The frame as it is on the wire (AMQP 0-9-1, 4.2.3).
    pub open spec fn written(self) -> Seq<u8> {
        wire::laid_out(self.parts())
    }

    /// What is to be read of it.
    pub open spec fn told(self, ctx: Context) -> Fields {
        let keys = map![
            "app"@ => ValueView::Str("amqp"@),
        ];
        let structure = map![
            "frame_type"@ => ValueView::Str(self.name()),
            "channel"@ => ValueView::U64(self.channel as u64),
            "size"@ => ValueView::U64(self.payload.len() as u64),
        ];
        let others = Map::<Seq<char>, ValueView>::empty();
        wire::shown(ctx, keys, structure, others)
    }
}

/// An AMQP frame is read as it was written.
pub proof fn amqp_reads_what_was_written(h: AmqpFrame, payload: Seq<u8>, ctx: Context)
    requires
        h.fits(),
    ensures
        Amqp.spec_parse(h.written() + payload, ctx) == Ok::<Parsed, ParseError>(
            Parsed { header_len: 8 + h.payload.len() as int, fields: h.told(ctx), hint: Hint::Terminal },
        ),
{
    let p = h.parts();
    let b = h.written() + payload;
    wire::parts_stand(p, payload);
    assert(p[0].len() == 1);
    assert(wire::offset(p, 1) == 1);
    assert(p[1].len() == 2);
    assert(wire::offset(p, 2) == 3);
    assert(p[2].len() == 4);
    assert(wire::offset(p, 3) == 7);
    assert(p[3] == h.payload);
    assert(wire::offset(p, 4) == 7 + h.payload.len());
    assert(p[4].len() == 1);
    assert(wire::offset(p, 5) == 8 + h.payload.len());
    wire::read_byte(b, 0, h.kind);
    wire::read16(b, 1, h.channel);
    wire::read32(b, 3, h.payload.len() as u32);
    assert(wire::stands(b, 7, p[3]));
    wire::read_byte(b, (7 + h.payload.len()) as int, 0xCE);
    assert(amqp::fields(b, ctx) =~= h.told(ctx));
}

/// The parts of an AMQP method frame.
pub ghost struct AmqpMethod {
    pub channel: u16,
    pub class: u16,
    pub method: u16,
    pub arguments: Seq<u8>,
}

impl AmqpMethod {
    /// Whether every part has room where it stands.
    pub open spec fn fits(self) -> bool {
        &&& self.arguments.len() + 4 <= u32::MAX
    }

    pub open spec fn parts(self) -> Seq<Seq<u8>> {
        seq![
            seq![1],
            wire::w16(self.channel),
            wire::w32((self.arguments.len() + 4) as u32),
            wire::w16(self.class),
            wire::w16(self.method),
            self.arguments,
            seq![0xCE],
        ]
    }

    /// The frame as it is on the wire (AMQP 0-9-1, 4.2.4).
    pub open spec fn written(self) -> Seq<u8> {
        wire::laid_out(self.parts())
    }

    /// What is to be read of it.
    pub open spec fn told(self, ctx: Context) -> Fields {
        let keys = map![
            "app"@ => ValueView::Str("amqp"@),
        ];
        let structure = map![
            "frame_type"@ => ValueView::Str("method"@),
            "channel"@ => ValueView::U64(self.channel as u64),
            "size"@ => ValueView::U64((self.arguments.len() + 4) as u64),
        ];
        let others = map![
            "class_id"@ => ValueView::U64(self.class as u64),
            "method_id"@ => ValueView::U64(self.method as u64),
        ];
        wire::shown(ctx, keys, structure, others)
    }
}

/// A method frame is read as it was written.
pub proof fn amqp_method_reads_what_was_written(h: AmqpMethod, payload: Seq<u8>, ctx: Context)
    requires
        h.fits(),
    ensures
        Amqp.spec_parse(h.written() + payload, ctx) == Ok::<Parsed, ParseError>(
            Parsed { header_len: 12 + h.arguments.len() as int, fields: h.told(ctx), hint: Hint::Terminal },
        ),
{
    let p = h.parts();
    let b = h.written() + payload;
    wire::parts_stand(p, payload);
    assert(p[0].len() == 1);
    assert(wire::offset(p, 1) == 1);
    assert(p[1].len() == 2);
    assert(wire::offset(p, 2) == 3);
    assert(p[2].len() == 4);
    assert(wire::offset(p, 3) == 7);
    assert(p[3].len() == 2);
    assert(wire::offset(p, 4) == 9);
    assert(p[4].len() == 2);
    assert(wire::offset(p, 5) == 11);
    assert(p[5] == h.arguments);
    assert(wire::offset(p, 6) == 11 + h.arguments.len());
    assert(p[6].len() == 1);
    assert(wire::offset(p, 7) == 12 + h.arguments.len());
    wire::read_byte(b, 0, 1);
    wire::read16(b, 1, h.channel);
    wire::read32(b, 3, (h.arguments.len() + 4) as u32);
    wire::read16(b, 7, h.class);
    wire::read16(b, 9, h.method);
    assert(wire::stands(b, 11, p[5]));
    wire::read_byte(b, (11 + h.arguments.len()) as int, 0xCE);
    assert(amqp::fields(b, ctx) =~= h.told(ctx));
}

/// The parts of an HTTP/2 frame other than settings.
pub ghost struct Http2Frame {
    pub kind: u8,
    pub flags: u8,
    pub reserved: bool,
    pub stream: u32,
    pub payload: Seq<u8>,
}

impl Http2Frame {
    /// Whether every part has room where it stands.
    pub open spec fn fits(self) -> bool {
        &&& self.kind <= 9
        &&& self.kind != 4
        &&& self.stream < 0x8000_0000
        &&& self.payload.len() < 0x100_0000
    }

    /// The name of the frame's type (RFC 9113, 6).
    pub open spec fn name(self) -> Seq<char> {
        if self.kind == 0 {
            "DATA"@
        } else if self.kind == 1 {
            "HEADERS"@
        } else if self.kind == 2 {
            "PRIORITY"@
        } else if self.kind == 3 {
            "RST_STREAM"@
        } else if self.kind == 5 {
            "PUSH_PROMISE"@
        } else if self.kind == 6 {
            "PING"@
        } else if self.kind == 7 {
            "GOAWAY"@
        } else if self.kind == 8 {
            "WINDOW_UPDATE"@
        } else {
            "CONTINUATION"@
        }
    }

    pub open spec fn parts(self) -> Seq<Seq<u8>> {
        seq![
            wire::w24(self.payload.len() as u32),
            seq![self.kind],
            seq![self.flags],
            wire::w32((wire::bit(self.reserved) * 0x8000_0000 + self.stream) as u32),
            self.payload,
        ]
    }

    /// The frame as it is on the wire (RFC 9113, 4.1).
    pub open spec fn written(self) -> Seq<u8> {
        wire::laid_out(self.parts())
    }

    /// What is to be read of it.
    pub open spec fn told(self, ctx: Context) -> Fields {
        let keys = map![
            "stream_id"@ => ValueView::U64(self.stream as u64),
        ];
        let structure = map![
            "frame_type"@ => ValueView::Str(self.name()),
            "flags"@ => ValueView::U64(self.flags as u64),
            "length"@ => ValueView::U64(self.payload.len() as u64),
        ];
        let others = Map::<Seq<char>, ValueView>::empty();
        wire::shown(ctx, keys, structure, others)
    }
}

/// An HTTP/2 frame is read as it was written.
pub proof fn http2_reads_what_was_written(h: Http2Frame, payload: Seq<u8>, ctx: Context)
    requires
        h.fits(),
    ensures
        Http2.spec_parse(h.written() + payload, ctx) == Ok::<Parsed, ParseError>(
            Parsed { header_len: 9 + h.payload.len() as int, fields: h.told(ctx), hint: Hint::Terminal },
        ),
{
    let p = h.parts();
    let b = h.written() + payload;
    wire::parts_stand(p, payload);
    assert(p[0].len() == 3);
    assert(wire::offset(p, 1) == 3);
    assert(p[1].len() == 1);
    assert(wire::offset(p, 2) == 4);
    assert(p[2].len() == 1);
    assert(wire::offset(p, 3) == 5);
    assert(p[3].len() == 4);
    assert(wire::offset(p, 4) == 9);
    assert(p[4] == h.payload);
    assert(wire::offset(p, 5) == 9 + h.payload.len());
    wire::read24(b, 0, h.payload.len() as u32);
    wire::read_byte(b, 3, h.kind);
    wire::read_byte(b, 4, h.flags);
    wire::read32(b, 5, (wire::bit(h.reserved) * 0x8000_0000 + h.stream) as u32);
    assert(wire::stands(b, 9, p[4]));
    wire::bits32((wire::bit(h.reserved) * 0x8000_0000 + h.stream) as u32);
    assert(http2::fields(b, ctx) =~= h.told(ctx));
}

/// Two such headers are of one conversation exactly if they have the same
/// qualifier.
pub proof fn http2_tells_conversations(h: Http2Frame, g: Http2Frame, ctx: Context)
    requires
        ctx.depth is Keys,
        h.fits(),
        g.fits(),
    ensures
        wire::is_keyed_by(Http2.spec_identity(), (KeyField { a: "stream_id", b: None })),
        wire::one_conversation(Http2.spec_identity()->0, h.told(ctx), g.told(ctx)) <==> h.stream == g.stream,
{
    let kf = KeyField { a: "stream_id", b: None };
    let identity = Http2.spec_identity()->0;
    assert(identity.key =~= seq![kf]);
    wire::qualifiers_tell_conversations(identity, kf, h.told(ctx), g.told(ctx));
}

/// The parts of an HTTP/2 settings frame: entries of six bytes.
pub ghost struct Http2Settings {
    pub flags: u8,
    pub stream: u32,
    pub entries: Seq<Seq<u8>>,
}

impl Http2Settings {
    /// Whether every part has room where it stands.
    pub open spec fn fits(self) -> bool {
        &&& self.stream < 0x8000_0000
        &&& self.entries.len() < 100_000
        &&& forall|i: int| 0 <= i < self.entries.len() ==> (#[trigger] self.entries[i]).len() == 6
    }

    pub open spec fn payload(self) -> Seq<u8> {
        wire::laid_out(self.entries)
    }

    pub open spec fn parts(self) -> Seq<Seq<u8>> {
        seq![
            wire::w24((self.entries.len() * 6) as u32),
            seq![4],
            seq![self.flags],
            wire::w32(self.stream),
            self.payload(),
        ]
    }

    /// The frame as it is on the wire (RFC 9113, 6.5).
    pub open spec fn written(self) -> Seq<u8> {
        wire::laid_out(self.parts())
    }

    /// What is to be read of it.
    pub open spec fn told(self, ctx: Context) -> Fields {
        let keys = map![
            "stream_id"@ => ValueView::U64(self.stream as u64),
        ];
        let structure = map![
            "frame_type"@ => ValueView::Str("SETTINGS"@),
            "flags"@ => ValueView::U64(self.flags as u64),
            "length"@ => ValueView::U64((self.entries.len() * 6) as u64),
        ];
        let others = map![
            "settings_entries"@ => ValueView::List(Seq::new(self.entries.len(), |i: int| ValueView::Bytes(self.entries[i]))),
        ];
        wire::shown(ctx, keys, structure, others)
    }
}

/// Settings are read entry by entry, as they were written.
pub proof fn http2_settings_reads_what_was_written(h: Http2Settings, payload: Seq<u8>, ctx: Context)
    requires
        h.fits(),
    ensures
        Http2.spec_parse(h.written() + payload, ctx) == Ok::<Parsed, ParseError>(
            Parsed { header_len: 9 + h.entries.len() as int * 6, fields: h.told(ctx), hint: Hint::Terminal },
        ),
{
    let p = h.parts();
    let b = h.written() + payload;
    wire::parts_stand(p, payload);
    assert(p[0].len() == 3);
    assert(wire::offset(p, 1) == 3);
    assert(p[1].len() == 1);
    assert(wire::offset(p, 2) == 4);
    assert(p[2].len() == 1);
    assert(wire::offset(p, 3) == 5);
    assert(p[3].len() == 4);
    assert(wire::offset(p, 4) == 9);
    assert(p[4] == h.payload());
    assert(wire::offset(p, 5) == 9 + h.payload().len());
    wire::read24(b, 0, (h.entries.len() * 6) as u32);
    wire::read_byte(b, 3, 4);
    wire::read_byte(b, 4, h.flags);
    wire::read32(b, 5, h.stream);
    assert(wire::stands(b, 9, p[4]));
    wire::bits32(h.stream);
    wire::parts_stand(h.entries, Seq::empty());
    let body = h.payload();
    assert(body + Seq::<u8>::empty() =~= body);
    wire::even_offsets(h.entries, 6, h.entries.len() as int);
    assert(http2::payload(b) =~= body);
    assert forall|i: int| 0 <= i < h.entries.len() implies #[trigger] body.subrange(
        i * 6,
        i * 6 + 6,
    ) == h.entries[i] by {
        wire::even_offsets(h.entries, 6, i);
        assert(wire::stands(body, wire::offset(h.entries, i), h.entries[i]));
    }
    assert(http2::entries(body) =~= Seq::new(
        h.entries.len(),
        |i: int| ValueView::Bytes(h.entries[i]),
    ));
    assert(http2::fields(b, ctx) =~= h.told(ctx));
}

} // verus!

//! Links: Ethernet, ARP, LLC, LACP and EAPOL.
use vstd::prelude::*;

use crate::bytes::ParseError;
use crate::flows::key;
use crate::identity::KeyField;
use crate::layer::{Context, Hint, LayerPlugin, Parsed, RouteId};
use crate::plugins::arp::{self, Arp};
use crate::plugins::eapol::{self, Eapol};
use crate::plugins::ethernet::{self, Ethernet};
use crate::plugins::lacp::{self, Lacp};
use crate::plugins::llc::{self, Llc};
use crate::plugins::wire;
use crate::value::{Fields, ValueView};

verus! {

/// The parts of an Ethernet header.
pub ghost struct EthernetHeader {
    pub dst: Seq<u8>,
    pub src: Seq<u8>,
    pub ethertype: u16,
}

impl EthernetHeader {
    /// Whether every part has room where it stands.
    pub open spec fn fits(self) -> bool {
        &&& self.dst.len() == 6
        &&& self.src.len() == 6
    }

    pub open spec fn parts(self) -> Seq<Seq<u8>> {
        seq![
            self.dst,
            self.src,
            wire::w16(self.ethertype),
        ]
    }

    /// The header as it is on the wire (IEEE 802.3).
    pub open spec fn written(self) -> Seq<u8> {
        wire::laid_out(self.parts())
    }

    /// What is to be read of it.
    pub open spec fn told(self, ctx: Context) -> Fields {
        let keys = map![
            "src_mac"@ => ValueView::Bytes(self.src),
            "dst_mac"@ => ValueView::Bytes(self.dst),
        ];
        let structure = map![
            "ethertype"@ => ValueView::U64(self.ethertype as u64),
        ];
        let others = Map::<Seq<char>, ValueView>::empty();
        wire::shown(ctx, keys, structure, others)
    }
}

/// An Ethernet header is read as it was written.
pub proof fn ethernet_reads_what_was_written(h: EthernetHeader, payload: Seq<u8>, ctx: Context)
    requires
        h.fits(),
    ensures
        Ethernet.spec_parse(h.written() + payload, ctx) == Ok::<Parsed, ParseError>(
            Parsed { header_len: 14, fields: h.told(ctx), hint: if h.ethertype >= 1536 {
                Hint::Route(RouteId::EtherType(h.ethertype))
            } else {
                Hint::Route(RouteId::Custom { space: "eth_llc_frame", id: 0 })
            } },
        ),
{
    let p = h.parts();
    let b = h.written() + payload;
    wire::parts_stand(p, payload);
    assert(p[0].len() == 6);
    assert(wire::offset(p, 1) == 6);
    assert(p[1].len() == 6);
    assert(wire::offset(p, 2) == 12);
    assert(p[2].len() == 2);
    assert(wire::offset(p, 3) == 14);
    assert(wire::stands(b, 0, p[0]));
    assert(wire::stands(b, 6, p[1]));
    wire::read16(b, 12, h.ethertype);
    assert(ethernet::fields(b, ctx) =~= h.told(ctx));
}

/// Two such headers are of one conversation exactly if they have the same two endpoints, in
/// either direction; and the two directions differ.
pub proof fn ethernet_tells_conversations(h: EthernetHeader, g: EthernetHeader, ctx: Context)
    requires
        ctx.depth is Keys,
        h.fits(),
        g.fits(),
    ensures
        wire::is_keyed_by(Ethernet.spec_identity(), (KeyField { a: "src_mac", b: Some("dst_mac") })),
        wire::one_conversation(Ethernet.spec_identity()->0, h.told(ctx), g.told(ctx)) <==> ((h.src == g.src && h.dst == g.dst) || (h.src == g.dst && h.dst == g.src)),
        h.src == g.dst && h.dst == g.src && h.src != h.dst ==> key::key_of(
            Ethernet.spec_identity()->0,
            h.told(ctx),
        )->Ok_0.1 == key::key_of(Ethernet.spec_identity()->0, g.told(ctx))->Ok_0.1.flipped(),
{
    let kf = KeyField { a: "src_mac", b: Some("dst_mac") };
    reveal_strlit("src_mac");
    reveal_strlit("dst_mac");
    assert("src_mac"@[0] != "dst_mac"@[0]);
    let identity = Ethernet.spec_identity()->0;
    assert(identity.key =~= seq![kf]);
    wire::pairs_tell_conversations(identity, kf, h.told(ctx), g.told(ctx));
}

/// The parts of an ARP message.
pub ghost struct ArpMessage {
    pub hardware: u16,
    pub protocol: u16,
    pub opcode: u16,
    pub sender_mac: Seq<u8>,
    pub sender_ip: Seq<u8>,
    pub target_mac: Seq<u8>,
    pub target_ip: Seq<u8>,
}

impl ArpMessage {
    /// Whether every part has room where it stands.
    pub open spec fn fits(self) -> bool {
        &&& 0 < self.sender_mac.len() < 256
        &&& 0 < self.sender_ip.len() < 256
        &&& self.target_mac.len() == self.sender_mac.len()
        &&& self.target_ip.len() == self.sender_ip.len()
    }

    pub open spec fn parts(self) -> Seq<Seq<u8>> {
        seq![
            wire::w16(self.hardware),
            wire::w16(self.protocol),
            seq![self.sender_mac.len() as u8],
            seq![self.sender_ip.len() as u8],
            wire::w16(self.opcode),
            self.sender_mac,
            self.sender_ip,
            self.target_mac,
            self.target_ip,
        ]
    }

    /// The message as it is on the wire (RFC 826).
    pub open spec fn written(self) -> Seq<u8> {
        wire::laid_out(self.parts())
    }

    /// What is to be read of it.
    pub open spec fn told(self, ctx: Context) -> Fields {
        let keys = Map::<Seq<char>, ValueView>::empty();
        let structure = map![
            "opcode"@ => ValueView::U64(self.opcode as u64),
            "sender_mac"@ => ValueView::Bytes(self.sender_mac),
            "sender_ip"@ => ValueView::Bytes(self.sender_ip),
            "target_mac"@ => ValueView::Bytes(self.target_mac),
            "target_ip"@ => ValueView::Bytes(self.target_ip),
        ];
        let others = Map::<Seq<char>, ValueView>::empty();
        wire::shown(ctx, keys, structure, others)
    }
}

/// An ARP message is read as it was written.
pub proof fn arp_reads_what_was_written(h: ArpMessage, payload: Seq<u8>, ctx: Context)
    requires
        h.fits(),
    ensures
        Arp.spec_parse(h.written() + payload, ctx) == Ok::<Parsed, ParseError>(
            Parsed { header_len: 8 + 2 * (h.sender_mac.len() + h.sender_ip.len()) as int, fields: h.told(ctx), hint: Hint::Terminal },
        ),
{
    let p = h.parts();
    let b = h.written() + payload;
    wire::parts_stand(p, payload);
    assert(p[0].len() == 2);
    assert(wire::offset(p, 1) == 2);
    assert(p[1].len() == 2);
    assert(wire::offset(p, 2) == 4);
    assert(p[2].len() == 1);
    assert(wire::offset(p, 3) == 5);
    assert(p[3].len() == 1);
    assert(wire::offset(p, 4) == 6);
    assert(p[4].len() == 2);
    assert(wire::offset(p, 5) == 8);
    assert(p[5] == h.sender_mac);
    assert(wire::offset(p, 6) == 8 + h.sender_mac.len());
    assert(p[6] == h.sender_ip);
    assert(wire::offset(p, 7) == 8 + h.sender_mac.len() + h.sender_ip.len());
    assert(p[7] == h.target_mac);
    assert(wire::offset(p, 8) == 8 + h.sender_mac.len() + h.sender_ip.len() + h.target_mac.len());
    assert(p[8] == h.target_ip);
    assert(wire::offset(p, 9) == 8 + h.sender_mac.len() + h.sender_ip.len() + h.target_mac.len() + h.target_ip.len());
    wire::read16(b, 0, h.hardware);
    wire::read16(b, 2, h.protocol);
    wire::read_byte(b, 4, h.sender_mac.len() as u8);
    wire::read_byte(b, 5, h.sender_ip.len() as u8);
    wire::read16(b, 6, h.opcode);
    assert(wire::stands(b, 8, p[5]));
    assert(wire::stands(b, (8 + h.sender_mac.len()) as int, p[6]));
    assert(wire::stands(b, (8 + h.sender_mac.len() + h.sender_ip.len()) as int, p[7]));
    assert(wire::stands(b, (8 + h.sender_mac.len() + h.sender_ip.len() + h.target_mac.len()) as int, p[8]));
    assert(arp::fields(b, ctx) =~= h.told(ctx));
}

/// The parts of an LLC header: access points, a control field of one byte or two, and
/// behind the SNAP access points an organisation and its protocol.
pub ghost struct LlcHeader {
    pub dsap: u8,
    pub ssap: u8,
    pub unnumbered: bool,
    pub control: u16,
    pub oui: u32,
    pub pid: u16,
}

impl LlcHeader {
    /// Whether every part has room where it stands.
    pub open spec fn fits(self) -> bool {
        &&& self.unnumbered ==> self.control < 0x100 && self.control % 4 == 3
        &&& !self.unnumbered ==> self.control / 0x100 % 4 != 3
        &&& self.oui < 0x100_0000
    }

    pub open spec fn is_snap(self) -> bool {
        self.dsap == 0xAA && self.ssap == 0xAA
    }

    pub open spec fn control_part(self) -> Seq<u8> {
        if self.unnumbered {
            seq![self.control as u8]
        } else {
            wire::w16(self.control)
        }
    }

    pub open spec fn oui_part(self) -> Seq<u8> {
        if self.is_snap() {
            wire::w24(self.oui)
        } else {
            Seq::empty()
        }
    }

    pub open spec fn pid_part(self) -> Seq<u8> {
        if self.is_snap() {
            wire::w16(self.pid)
        } else {
            Seq::empty()
        }
    }

    pub open spec fn next(self) -> Hint {
        if !self.is_snap() {
            Hint::Route(RouteId::Custom { space: "llc_dsap", id: self.dsap as u64 })
        } else if self.oui == 0 {
            Hint::Route(RouteId::EtherType(self.pid))
        } else {
            Hint::Route(
                RouteId::Custom { space: "snap_pid", id: (self.oui * 65536 + self.pid) as u64 },
            )
        }
    }

    pub open spec fn parts(self) -> Seq<Seq<u8>> {
        seq![
            seq![self.dsap],
            seq![self.ssap],
            self.control_part(),
            self.oui_part(),
            self.pid_part(),
        ]
    }

    /// The header as it is on the wire (IEEE 802.2).
    pub open spec fn written(self) -> Seq<u8> {
        wire::laid_out(self.parts())
    }

    /// What is to be read of it.
    pub open spec fn told(self, ctx: Context) -> Fields {
        let keys = Map::<Seq<char>, ValueView>::empty();
        let structure = map![
            "dsap"@ => ValueView::U64(self.dsap as u64),
            "ssap"@ => ValueView::U64(self.ssap as u64),
            "control"@ => ValueView::U64(self.control as u64),
        ];
        let others = Map::<Seq<char>, ValueView>::empty();
        let others = wire::with(others, self.is_snap(), "oui"@, ValueView::U64(self.oui as u64));
        let others = wire::with(others, self.is_snap(), "pid"@, ValueView::U64(self.pid as u64));
        wire::shown(ctx, keys, structure, others)
    }
}

/// An LLC header is read as it was written.
pub proof fn llc_reads_what_was_written(h: LlcHeader, payload: Seq<u8>, ctx: Context)
    requires
        h.fits(),
    ensures
        Llc.spec_parse(h.written() + payload, ctx) == Ok::<Parsed, ParseError>(
            Parsed { header_len: (if h.unnumbered {
                3int
            } else {
                4
            }) + if h.is_snap() {
                5int
            } else {
                0
            }, fields: h.told(ctx), hint: h.next() },
        ),
{
    let p = h.parts();
    let b = h.written() + payload;
    wire::parts_stand(p, payload);
    assert(p[0].len() == 1);
    assert(wire::offset(p, 1) == 1);
    assert(p[1].len() == 1);
    assert(wire::offset(p, 2) == 2);
    assert(p[2] == h.control_part());
    assert(wire::offset(p, 3) == 2 + h.control_part().len());
    assert(p[3] == h.oui_part());
    assert(wire::offset(p, 4) == 2 + h.control_part().len() + h.oui_part().len());
    assert(p[4] == h.pid_part());
    assert(wire::offset(p, 5) == 2 + h.control_part().len() + h.oui_part().len() + h.pid_part().len());
    wire::read_byte(b, 0, h.dsap);
    wire::read_byte(b, 1, h.ssap);
    assert(wire::stands(b, 2, p[2]));
    assert(wire::stands(b, (2 + h.control_part().len()) as int, p[3]));
    assert(wire::stands(b, (2 + h.control_part().len() + h.oui_part().len()) as int, p[4]));
    if h.unnumbered {
        wire::read_byte(b, 2, h.control as u8);
    } else {
        wire::read16(b, 2, h.control);
        assert(b[2] == h.control / 0x100) by {
            assert(b.subrange(2, 4)[0] == wire::w16(h.control)[0]);
        }
    }
    wire::bits8(b[2]);
    let at = llc::snap_at(b);
    assert(at == 2 + h.control_part().len());
    if h.is_snap() {
        wire::read24(b, at, h.oui);
        wire::read16(b, at + 3, h.pid);
    }
    assert(llc::fields(b, ctx) =~= h.told(ctx));
}

/// The parts of a LACP data unit.
pub ghost struct LacpUnit {
    pub version: u8,
    pub actor_system_priority: u16,
    pub actor_system: Seq<u8>,
    pub actor_key: u16,
    pub actor_port_priority: u16,
    pub actor_port: u16,
    pub actor_state: u8,
    pub actor_reserved: Seq<u8>,
    pub partner_system_priority: u16,
    pub partner_system: Seq<u8>,
    pub partner_key: u16,
    pub partner_port_priority: u16,
    pub partner_port: u16,
    pub partner_state: u8,
    pub partner_reserved: Seq<u8>,
    pub collector: Seq<u8>,
    pub reserved: Seq<u8>,
}

impl LacpUnit {
    /// Whether every part has room where it stands.
    pub open spec fn fits(self) -> bool {
        &&& self.actor_system.len() == 6
        &&& self.actor_reserved.len() == 3
        &&& self.partner_system.len() == 6
        &&& self.partner_reserved.len() == 3
        &&& self.collector.len() == 14
        &&& self.reserved.len() == 50
    }

    pub open spec fn parts(self) -> Seq<Seq<u8>> {
        seq![
            seq![1],
            seq![self.version],
            seq![1],
            seq![20],
            wire::w16(self.actor_system_priority),
            self.actor_system,
            wire::w16(self.actor_key),
            wire::w16(self.actor_port_priority),
            wire::w16(self.actor_port),
            seq![self.actor_state],
            self.actor_reserved,
            seq![2],
            seq![20],
            wire::w16(self.partner_system_priority),
            self.partner_system,
            wire::w16(self.partner_key),
            wire::w16(self.partner_port_priority),
            wire::w16(self.partner_port),
            seq![self.partner_state],
            self.partner_reserved,
            seq![3],
            seq![16],
            self.collector,
            seq![0],
            seq![0],
            self.reserved,
        ]
    }

    /// The unit as it is on the wire (IEEE 802.3, clause 43).
    pub open spec fn written(self) -> Seq<u8> {
        wire::laid_out(self.parts())
    }

    /// What is to be read of it.
    pub open spec fn told(self, ctx: Context) -> Fields {
        let keys = map![
            "actor_system"@ => ValueView::Bytes(self.actor_system),
            "partner_system"@ => ValueView::Bytes(self.partner_system),
        ];
        let structure = map![
            "actor_key"@ => ValueView::U64(self.actor_key as u64),
            "actor_port"@ => ValueView::U64(self.actor_port as u64),
            "actor_state"@ => ValueView::U64(self.actor_state as u64),
            "partner_key"@ => ValueView::U64(self.partner_key as u64),
            "partner_port"@ => ValueView::U64(self.partner_port as u64),
            "partner_state"@ => ValueView::U64(self.partner_state as u64),
        ];
        let others = Map::<Seq<char>, ValueView>::empty();
        wire::shown(ctx, keys, structure, others)
    }
}

/// A LACP data unit is read as it was written.
pub proof fn lacp_reads_what_was_written(h: LacpUnit, payload: Seq<u8>, ctx: Context)
    requires
        h.fits(),
    ensures
        Lacp.spec_parse(h.written() + payload, ctx) == Ok::<Parsed, ParseError>(
            Parsed { header_len: 110, fields: h.told(ctx), hint: Hint::Terminal },
        ),
{
    let p = h.parts();
    let b = h.written() + payload;
    wire::parts_stand(p, payload);
    assert(p[0].len() == 1);
    assert(wire::offset(p, 1) == 1);
    assert(p[1].len() == 1);
    assert(wire::offset(p, 2) == 2);
    assert(p[2].len() == 1);
    assert(wire::offset(p, 3) == 3);
    assert(p[3].len() == 1);
    assert(wire::offset(p, 4) == 4);
    assert(p[4].len() == 2);
    assert(wire::offset(p, 5) == 6);
    assert(p[5].len() == 6);
    assert(wire::offset(p, 6) == 12);
    assert(p[6].len() == 2);
    assert(wire::offset(p, 7) == 14);
    assert(p[7].len() == 2);
    assert(wire::offset(p, 8) == 16);
    assert(p[8].len() == 2);
    assert(wire::offset(p, 9) == 18);
    assert(p[9].len() == 1);
    assert(wire::offset(p, 10) == 19);
    assert(p[10].len() == 3);
    assert(wire::offset(p, 11) == 22);
    assert(p[11].len() == 1);
    assert(wire::offset(p, 12) == 23);
    assert(p[12].len() == 1);
    assert(wire::offset(p, 13) == 24);
    assert(p[13].len() == 2);
    assert(wire::offset(p, 14) == 26);
    assert(p[14].len() == 6);
    assert(wire::offset(p, 15) == 32);
    assert(p[15].len() == 2);
    assert(wire::offset(p, 16) == 34);
    assert(p[16].len() == 2);
    assert(wire::offset(p, 17) == 36);
    assert(p[17].len() == 2);
    assert(wire::offset(p, 18) == 38);
    assert(p[18].len() == 1);
    assert(wire::offset(p, 19) == 39);
    assert(p[19].len() == 3);
    assert(wire::offset(p, 20) == 42);
    assert(p[20].len() == 1);
    assert(wire::offset(p, 21) == 43);
    assert(p[21].len() == 1);
    assert(wire::offset(p, 22) == 44);
    assert(p[22].len() == 14);
    assert(wire::offset(p, 23) == 58);
    assert(p[23].len() == 1);
    assert(wire::offset(p, 24) == 59);
    assert(p[24].len() == 1);
    assert(wire::offset(p, 25) == 60);
    assert(p[25].len() == 50);
    assert(wire::offset(p, 26) == 110);
    wire::read_byte(b, 0, 1);
    wire::read_byte(b, 1, h.version);
    wire::read_byte(b, 2, 1);
    wire::read_byte(b, 3, 20);
    wire::read16(b, 4, h.actor_system_priority);
    assert(wire::stands(b, 6, p[5]));
    wire::read16(b, 12, h.actor_key);
    wire::read16(b, 14, h.actor_port_priority);
    wire::read16(b, 16, h.actor_port);
    wire::read_byte(b, 18, h.actor_state);
    assert(wire::stands(b, 19, p[10]));
    wire::read_byte(b, 22, 2);
    wire::read_byte(b, 23, 20);
    wire::read16(b, 24, h.partner_system_priority);
    assert(wire::stands(b, 26, p[14]));
    wire::read16(b, 32, h.partner_key);
    wire::read16(b, 34, h.partner_port_priority);
    wire::read16(b, 36, h.partner_port);
    wire::read_byte(b, 38, h.partner_state);
    assert(wire::stands(b, 39, p[19]));
    wire::read_byte(b, 42, 3);
    wire::read_byte(b, 43, 16);
    assert(wire::stands(b, 44, p[22]));
    wire::read_byte(b, 58, 0);
    wire::read_byte(b, 59, 0);
    assert(wire::stands(b, 60, p[25]));
    assert(lacp::fields(b, ctx) =~= h.told(ctx));
}

/// Two such headers are of one conversation exactly if they have the same two endpoints, in
/// either direction; and the two directions differ.
pub proof fn lacp_tells_conversations(h: LacpUnit, g: LacpUnit, ctx: Context)
    requires
        ctx.depth is Keys,
        h.fits(),
        g.fits(),
    ensures
        wire::is_keyed_by(Lacp.spec_identity(), (KeyField { a: "actor_system", b: Some("partner_system") })),
        wire::one_conversation(Lacp.spec_identity()->0, h.told(ctx), g.told(ctx)) <==> ((h.actor_system == g.actor_system && h.partner_system == g.partner_system) || (h.actor_system == g.partner_system && h.partner_system == g.actor_system)),
        h.actor_system == g.partner_system && h.partner_system == g.actor_system && h.actor_system != h.partner_system ==> key::key_of(
            Lacp.spec_identity()->0,
            h.told(ctx),
        )->Ok_0.1 == key::key_of(Lacp.spec_identity()->0, g.told(ctx))->Ok_0.1.flipped(),
{
    let kf = KeyField { a: "actor_system", b: Some("partner_system") };
    reveal_strlit("actor_system");
    reveal_strlit("partner_system");
    assert("actor_system"@.len() != "partner_system"@.len());
    let identity = Lacp.spec_identity()->0;
    assert(identity.key =~= seq![kf]);
    wire::pairs_tell_conversations(identity, kf, h.told(ctx), g.told(ctx));
}

/// The parts of an EAPOL packet that carries no key.
pub ghost struct EapolPacket {
    pub version: u8,
    pub kind: u8,
    pub body: Seq<u8>,
}

impl EapolPacket {
    /// Whether every part has room where it stands.
    pub open spec fn fits(self) -> bool {
        &&& self.kind != 3
        &&& self.body.len() < 0x1_0000
    }

    pub open spec fn parts(self) -> Seq<Seq<u8>> {
        seq![
            seq![self.version],
            seq![self.kind],
            wire::w16(self.body.len() as u16),
            self.body,
        ]
    }

    /// The packet as it is on the wire (IEEE 802.1X).
    pub open spec fn written(self) -> Seq<u8> {
        wire::laid_out(self.parts())
    }

    /// What is to be read of it.
    pub open spec fn told(self, ctx: Context) -> Fields {
        let keys = Map::<Seq<char>, ValueView>::empty();
        let structure = map![
            "version"@ => ValueView::U64(self.version as u64),
            "packet_type"@ => ValueView::U64(self.kind as u64),
            "body_length"@ => ValueView::U64(self.body.len() as u64),
        ];
        let others = Map::<Seq<char>, ValueView>::empty();
        wire::shown(ctx, keys, structure, others)
    }
}

/// An EAPOL packet is read as it was written.
pub proof fn eapol_reads_what_was_written(h: EapolPacket, payload: Seq<u8>, ctx: Context)
    requires
        h.fits(),
    ensures
        Eapol.spec_parse(h.written() + payload, ctx) == Ok::<Parsed, ParseError>(
            Parsed { header_len: 4 + h.body.len() as int, fields: h.told(ctx), hint: Hint::Terminal },
        ),
{
    let p = h.parts();
    let b = h.written() + payload;
    wire::parts_stand(p, payload);
    assert(p[0].len() == 1);
    assert(wire::offset(p, 1) == 1);
    assert(p[1].len() == 1);
    assert(wire::offset(p, 2) == 2);
    assert(p[2].len() == 2);
    assert(wire::offset(p, 3) == 4);
    assert(p[3] == h.body);
    assert(wire::offset(p, 4) == 4 + h.body.len());
    wire::read_byte(b, 0, h.version);
    wire::read_byte(b, 1, h.kind);
    wire::read16(b, 2, h.body.len() as u16);
    assert(wire::stands(b, 4, p[3]));
    assert(eapol::fields(b, ctx) =~= h.told(ctx));
}

/// The parts of an EAPOL packet with a key descriptor.
pub ghost struct EapolKey {
    pub version: u8,
    pub descriptor: u8,
    pub info: u16,
    pub length: u16,
    pub replay_counter: u64,
    pub nonce: Seq<u8>,
    pub iv: Seq<u8>,
    pub rsc: u64,
    pub id: Seq<u8>,
    pub mic: Seq<u8>,
    pub data_length: u16,
    pub data: Seq<u8>,
}

impl EapolKey {
    /// Whether every part has room where it stands.
    pub open spec fn fits(self) -> bool {
        &&& self.nonce.len() == 32
        &&& self.iv.len() == 16
        &&& self.id.len() == 8
        &&& self.mic.len() == 16
        &&& self.data.len() < 65000
    }

    /// The descriptor, and the key data behind it.
    pub open spec fn body_len(self) -> int {
        95 + self.data.len() as int
    }

    pub open spec fn parts(self) -> Seq<Seq<u8>> {
        seq![
            seq![self.version],
            seq![3],
            wire::w16(self.body_len() as u16),
            seq![self.descriptor],
            wire::w16(self.info),
            wire::w16(self.length),
            wire::w64(self.replay_counter),
            self.nonce,
            self.iv,
            wire::w64(self.rsc),
            self.id,
            self.mic,
            wire::w16(self.data_length),
            self.data,
        ]
    }

    /// The packet as it is on the wire (IEEE 802.11, 12.7.2).
    pub open spec fn written(self) -> Seq<u8> {
        wire::laid_out(self.parts())
    }

    /// What is to be read of it.
    pub open spec fn told(self, ctx: Context) -> Fields {
        let keys = Map::<Seq<char>, ValueView>::empty();
        let structure = map![
            "version"@ => ValueView::U64(self.version as u64),
            "packet_type"@ => ValueView::U64(3),
            "body_length"@ => ValueView::U64(self.body_len() as u64),
        ];
        let others = map![
            "key_descriptor_type"@ => ValueView::U64(self.descriptor as u64),
            "key_info"@ => ValueView::U64(self.info as u64),
            "key_length"@ => ValueView::U64(self.length as u64),
            "replay_counter"@ => ValueView::U64(self.replay_counter),
            "nonce"@ => ValueView::Bytes(self.nonce),
            "key_iv"@ => ValueView::Bytes(self.iv),
            "key_rsc"@ => ValueView::U64(self.rsc),
            "key_mic"@ => ValueView::Bytes(self.mic),
            "key_data_length"@ => ValueView::U64(self.data_length as u64),
        ];
        wire::shown(ctx, keys, structure, others)
    }
}

/// A key descriptor is read as it was written.
pub proof fn eapol_key_reads_what_was_written(h: EapolKey, payload: Seq<u8>, ctx: Context)
    requires
        h.fits(),
    ensures
        Eapol.spec_parse(h.written() + payload, ctx) == Ok::<Parsed, ParseError>(
            Parsed { header_len: 4 + h.body_len(), fields: h.told(ctx), hint: Hint::Terminal },
        ),
{
    let p = h.parts();
    let b = h.written() + payload;
    wire::parts_stand(p, payload);
    assert(p[0].len() == 1);
    assert(wire::offset(p, 1) == 1);
    assert(p[1].len() == 1);
    assert(wire::offset(p, 2) == 2);
    assert(p[2].len() == 2);
    assert(wire::offset(p, 3) == 4);
    assert(p[3].len() == 1);
    assert(wire::offset(p, 4) == 5);
    assert(p[4].len() == 2);
    assert(wire::offset(p, 5) == 7);
    assert(p[5].len() == 2);
    assert(wire::offset(p, 6) == 9);
    assert(p[6].len() == 8);
    assert(wire::offset(p, 7) == 17);
    assert(p[7].len() == 32);
    assert(wire::offset(p, 8) == 49);
    assert(p[8].len() == 16);
    assert(wire::offset(p, 9) == 65);
    assert(p[9].len() == 8);
    assert(wire::offset(p, 10) == 73);
    assert(p[10].len() == 8);
    assert(wire::offset(p, 11) == 81);
    assert(p[11].len() == 16);
    assert(wire::offset(p, 12) == 97);
    assert(p[12].len() == 2);
    assert(wire::offset(p, 13) == 99);
    assert(p[13] == h.data);
    assert(wire::offset(p, 14) == 99 + h.data.len());
    wire::read_byte(b, 0, h.version);
    wire::read_byte(b, 1, 3);
    wire::read16(b, 2, h.body_len() as u16);
    wire::read_byte(b, 4, h.descriptor);
    wire::read16(b, 5, h.info);
    wire::read16(b, 7, h.length);
    wire::read64(b, 9, h.replay_counter);
    assert(wire::stands(b, 17, p[7]));
    assert(wire::stands(b, 49, p[8]));
    wire::read64(b, 65, h.rsc);
    assert(wire::stands(b, 73, p[10]));
    assert(wire::stands(b, 81, p[11]));
    wire::read16(b, 97, h.data_length);
    assert(wire::stands(b, 99, p[13]));
    let d = eapol::body(b);
    assert(d.len() == h.body_len());
    assert forall|i: int, n: int| 0 <= i && 0 <= n && i + n <= d.len() implies #[trigger] d.subrange(
        i,
        i + n,
    ) == b.subrange(4 + i, 4 + i + n) by {
        assert(d.subrange(i, i + n) =~= b.subrange(4 + i, 4 + i + n));
    }
    assert(d[0] == b[4]);
    wire::read16(d, 1, h.info);
    wire::read16(d, 3, h.length);
    wire::read64(d, 5, h.replay_counter);
    wire::read64(d, 61, h.rsc);
    wire::read16(d, 93, h.data_length);
    assert(d.subrange(13, 13int + 32) == h.nonce);
    assert(d.subrange(45, 45int + 16) == h.iv);
    assert(d.subrange(77, 77int + 16) == h.mic);
    assert(eapol::fields(b, ctx) =~= h.told(ctx));
}

} // verus!

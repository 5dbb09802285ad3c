//! Tunnels: GRE, Geneve, ERSPAN, L2TPv3 and GTP-U.
use vstd::prelude::*;

use crate::bytes::ParseError;
use crate::identity::KeyField;
use crate::layer::{Context, Hint, LayerPlugin, Parsed, RouteId};
use crate::plugins::erspan::{self, Erspan};
use crate::plugins::geneve::{self, Geneve};
use crate::plugins::gre::{self, Gre};
use crate::plugins::gtp_u::{self, GtpU};
use crate::plugins::l2tpv3::{self, L2tpv3};
use crate::plugins::wire;
use crate::value::{Fields, ValueView};

verus! {

/// The parts of a GRE header. Behind the flags a checksum, a key and a sequence number
/// may follow.
pub ghost struct GreHeader {
    pub checksum: Option<(u16, u16)>,
    pub routing: bool,
    pub key: Option<u32>,
    pub sequence: Option<u32>,
    pub other: u16,
    pub protocol: u16,
}

impl GreHeader {
    /// Whether every part has room where it stands.
    pub open spec fn fits(self) -> bool {
        &&& self.other < 0x200
    }

    /// The four flags: checksum, routing, key, sequence number.
    pub open spec fn flags(self) -> int {
        wire::bit(self.checksum is Some) * 8 + wire::bit(self.routing) * 4 + wire::bit(
            self.key is Some,
        ) * 2 + wire::bit(self.sequence is Some)
    }

    pub open spec fn word(self) -> u16 {
        (self.flags() * 0x1000 + self.other * 8) as u16
    }

    pub open spec fn checksum_part(self) -> Seq<u8> {
        match self.checksum {
            Some((sum, _)) => wire::w16(sum),
            None => Seq::empty(),
        }
    }

    pub open spec fn reserved_part(self) -> Seq<u8> {
        match self.checksum {
            Some((_, reserved)) => wire::w16(reserved),
            None => Seq::empty(),
        }
    }

    pub open spec fn key_part(self) -> Seq<u8> {
        match self.key {
            Some(k) => wire::w32(k),
            None => Seq::empty(),
        }
    }

    pub open spec fn sequence_part(self) -> Seq<u8> {
        match self.sequence {
            Some(n) => wire::w32(n),
            None => Seq::empty(),
        }
    }

    pub open spec fn sum(self) -> u16 {
        match self.checksum {
            Some((sum, _)) => sum,
            None => 0,
        }
    }

    /// A tunnel without a key has key zero.
    pub open spec fn tunnel(self) -> u32 {
        match self.key {
            Some(k) => k,
            None => 0,
        }
    }

    pub open spec fn len(self) -> int {
        4 + 4 * (wire::bit(self.checksum is Some) + wire::bit(self.key is Some) + wire::bit(
            self.sequence is Some,
        ))
    }

    pub open spec fn parts(self) -> Seq<Seq<u8>> {
        seq![
            wire::w16(self.word()),
            wire::w16(self.protocol),
            self.checksum_part(),
            self.reserved_part(),
            self.key_part(),
            self.sequence_part(),
        ]
    }

    /// The header as it is on the wire (RFC 2784, RFC 2890).
    pub open spec fn written(self) -> Seq<u8> {
        wire::laid_out(self.parts())
    }

    /// What is to be read of it.
    pub open spec fn told(self, ctx: Context) -> Fields {
        let keys = map![
            "key"@ => ValueView::U64(self.tunnel() as u64),
        ];
        let structure = map![
            "flags"@ => ValueView::U64(self.flags() as u64),
            "protocol"@ => ValueView::U64(self.protocol as u64),
            "version"@ => ValueView::U64(0),
        ];
        let others = Map::<Seq<char>, ValueView>::empty();
        let others = wire::with(others, self.checksum is Some, "checksum"@, ValueView::U64(self.sum() as u64));
        let others = wire::with(others, self.sequence is Some, "sequence"@, ValueView::U64(self.sequence->0 as u64));
        wire::shown(ctx, keys, structure, others)
    }
}

/// A GRE header is read as it was written.
pub proof fn gre_reads_what_was_written(h: GreHeader, payload: Seq<u8>, ctx: Context)
    requires
        h.fits(),
    ensures
        Gre.spec_parse(h.written() + payload, ctx) == Ok::<Parsed, ParseError>(
            Parsed { header_len: h.len(), fields: h.told(ctx), hint: Hint::Route(RouteId::EtherType(h.protocol)) },
        ),
{
    let p = h.parts();
    let b = h.written() + payload;
    wire::parts_stand(p, payload);
    assert(p[0].len() == 2);
    assert(wire::offset(p, 1) == 2);
    assert(p[1].len() == 2);
    assert(wire::offset(p, 2) == 4);
    assert(p[2] == h.checksum_part());
    assert(wire::offset(p, 3) == 4 + h.checksum_part().len());
    assert(p[3] == h.reserved_part());
    assert(wire::offset(p, 4) == 4 + h.checksum_part().len() + h.reserved_part().len());
    assert(p[4] == h.key_part());
    assert(wire::offset(p, 5) == 4 + h.checksum_part().len() + h.reserved_part().len() + h.key_part().len());
    assert(p[5] == h.sequence_part());
    assert(wire::offset(p, 6) == 4 + h.checksum_part().len() + h.reserved_part().len() + h.key_part().len() + h.sequence_part().len());
    wire::read16(b, 0, h.word());
    wire::read16(b, 2, h.protocol);
    assert(wire::stands(b, 4, p[2]));
    assert(wire::stands(b, (4 + h.checksum_part().len()) as int, p[3]));
    assert(wire::stands(b, (4 + h.checksum_part().len() + h.reserved_part().len()) as int, p[4]));
    assert(wire::stands(b, (4 + h.checksum_part().len() + h.reserved_part().len() + h.key_part().len()) as int, p[5]));
    let w = h.word();
    wire::bits16(w);
    assert(w / 0x1000 == h.flags());
    assert(gre::has(b, gre::C_BIT) <==> h.checksum is Some);
    assert(gre::has(b, gre::K_BIT) <==> h.key is Some);
    assert(gre::has(b, gre::S_BIT) <==> h.sequence is Some);
    if h.checksum is Some {
        wire::read16(b, 4, h.sum());
    }
    if h.key is Some {
        wire::read32(b, gre::key_at(b), h.key->0);
    }
    if h.sequence is Some {
        wire::read32(b, gre::sequence_at(b), h.sequence->0);
    }
    assert(gre::fields(b, ctx) =~= h.told(ctx));
}

/// Two such headers are of one conversation exactly if they have the same
/// qualifier.
pub proof fn gre_tells_conversations(h: GreHeader, g: GreHeader, ctx: Context)
    requires
        ctx.depth is Keys,
        h.fits(),
        g.fits(),
    ensures
        wire::is_keyed_by(Gre.spec_identity(), (KeyField { a: "key", b: None })),
        wire::one_conversation(Gre.spec_identity()->0, h.told(ctx), g.told(ctx)) <==> h.tunnel() == g.tunnel(),
{
    let kf = KeyField { a: "key", b: None };
    let identity = Gre.spec_identity()->0;
    assert(identity.key =~= seq![kf]);
    wire::qualifiers_tell_conversations(identity, kf, h.told(ctx), g.told(ctx));
}

/// The parts of a Geneve header.
pub ghost struct GeneveHeader {
    pub control: bool,
    pub critical: bool,
    pub reserved: u8,
    pub protocol: u16,
    pub vni: u32,
    pub unused: u8,
    pub options: Seq<u8>,
}

impl GeneveHeader {
    /// Whether every part has room where it stands.
    pub open spec fn fits(self) -> bool {
        &&& self.reserved < 64
        &&& self.vni < 0x100_0000
        &&& self.options.len() % 4 == 0
        &&& self.options.len() <= 252
    }

    /// The options' length in 32-bit words.
    pub open spec fn words(self) -> int {
        self.options.len() as int / 4
    }

    pub open spec fn parts(self) -> Seq<Seq<u8>> {
        seq![
            seq![self.words() as u8],
            seq![(wire::bit(self.control) * 128 + wire::bit(self.critical) * 64 + self.reserved) as u8],
            wire::w16(self.protocol),
            wire::w24(self.vni),
            seq![self.unused],
            self.options,
        ]
    }

    /// The header as it is on the wire (RFC 8926).
    pub open spec fn written(self) -> Seq<u8> {
        wire::laid_out(self.parts())
    }

    /// What is to be read of it.
    pub open spec fn told(self, ctx: Context) -> Fields {
        let keys = map![
            "vni"@ => ValueView::U64(self.vni as u64),
        ];
        let structure = map![
            "version"@ => ValueView::U64(0),
            "opt_len"@ => ValueView::U64(self.words() as u64),
            "o_bit"@ => ValueView::Bool(self.control),
            "c_bit"@ => ValueView::Bool(self.critical),
            "protocol_type"@ => ValueView::U64(self.protocol as u64),
        ];
        let others = map![
            "options"@ => ValueView::Bytes(self.options),
        ];
        wire::shown(ctx, keys, structure, others)
    }
}

/// A Geneve header is read as it was written.
pub proof fn geneve_reads_what_was_written(h: GeneveHeader, payload: Seq<u8>, ctx: Context)
    requires
        h.fits(),
    ensures
        Geneve.spec_parse(h.written() + payload, ctx) == Ok::<Parsed, ParseError>(
            Parsed { header_len: 8 + h.options.len() as int, fields: h.told(ctx), hint: Hint::Route(RouteId::EtherType(h.protocol)) },
        ),
{
    let p = h.parts();
    let b = h.written() + payload;
    wire::parts_stand(p, payload);
    assert(p[0].len() == 1);
    assert(wire::offset(p, 1) == 1);
    assert(p[1].len() == 1);
    assert(wire::offset(p, 2) == 2);
    assert(p[2].len() == 2);
    assert(wire::offset(p, 3) == 4);
    assert(p[3].len() == 3);
    assert(wire::offset(p, 4) == 7);
    assert(p[4].len() == 1);
    assert(wire::offset(p, 5) == 8);
    assert(p[5] == h.options);
    assert(wire::offset(p, 6) == 8 + h.options.len());
    wire::read_byte(b, 0, h.words() as u8);
    wire::read_byte(b, 1, (wire::bit(h.control) * 128 + wire::bit(h.critical) * 64 + h.reserved) as u8);
    wire::read16(b, 2, h.protocol);
    wire::read24(b, 4, h.vni);
    wire::read_byte(b, 7, h.unused);
    assert(wire::stands(b, 8, p[5]));
    wire::bits8(b[0]);
    wire::bits8(b[1]);
    assert(geneve::fields(b, ctx) =~= h.told(ctx));
}

/// Two such headers are of one conversation exactly if they have the same
/// qualifier.
pub proof fn geneve_tells_conversations(h: GeneveHeader, g: GeneveHeader, ctx: Context)
    requires
        ctx.depth is Keys,
        h.fits(),
        g.fits(),
    ensures
        wire::is_keyed_by(Geneve.spec_identity(), (KeyField { a: "vni", b: None })),
        wire::one_conversation(Geneve.spec_identity()->0, h.told(ctx), g.told(ctx)) <==> h.vni == g.vni,
{
    let kf = KeyField { a: "vni", b: None };
    let identity = Geneve.spec_identity()->0;
    assert(identity.key =~= seq![kf]);
    wire::qualifiers_tell_conversations(identity, kf, h.told(ctx), g.told(ctx));
}

/// The bit fields of the second word.
proof fn lemma_second(cos: int, encap: int, truncated: int, session: int)
    requires
        0 <= cos < 8,
        0 <= encap < 4,
        0 <= truncated < 2,
        0 <= session < 0x400,
    ensures
        ({
            let w = cos * 0x2000 + encap * 0x800 + truncated * 0x400 + session;
            0 <= w < 0x1_0000 && w / 0x2000 == cos && w % 0x400 == session && w / 0x400 % 2
                == truncated
        }),
{
}

/// The bit fields of the third word of a Type II header.
proof fn lemma_third(reserved: int, index: int)
    requires
        0 <= reserved < 0x1000,
        0 <= index < 0x10_0000,
    ensures
        0 <= reserved * 0x10_0000 + index < 0x1_0000_0000,
        (reserved * 0x10_0000 + index) % 0x10_0000 == index,
{
}

/// The bit fields of the last word of a Type III header.
proof fn lemma_last(p: int, frame_type: int, other: int, o: int)
    requires
        0 <= p < 2,
        0 <= frame_type < 32,
        0 <= other < 0x200,
        0 <= o < 2,
    ensures
        ({
            let w = p * 0x8000 + frame_type * 0x400 + other * 2 + o;
            0 <= w < 0x1_0000 && w / 0x400 % 32 == frame_type && w % 2 == o
        }),
{
}

/// The parts of an ERSPAN Type II header.
pub ghost struct ErspanTypeTwo {
    pub vlan: u16,
    pub cos: u8,
    pub encap: u8,
    pub truncated: bool,
    pub session: u16,
    pub reserved: u16,
    pub index: u32,
}

impl ErspanTypeTwo {
    /// Whether every part has room where it stands.
    pub open spec fn fits(self) -> bool {
        &&& self.vlan < 0x1000
        &&& self.cos < 8
        &&& self.encap < 4
        &&& self.session < 0x400
        &&& self.reserved < 0x1000
        &&& self.index < 0x10_0000
    }

    pub open spec fn second(self) -> u16 {
        (self.cos * 0x2000 + self.encap * 0x800 + wire::bit(self.truncated) * 0x400
            + self.session) as u16
    }

    pub open spec fn parts(self) -> Seq<Seq<u8>> {
        seq![
            wire::w16((0x1000 + self.vlan) as u16),
            wire::w16(self.second()),
            wire::w32((self.reserved * 0x10_0000 + self.index) as u32),
        ]
    }

    /// The header as it is on the wire.
    pub open spec fn written(self) -> Seq<u8> {
        wire::laid_out(self.parts())
    }

    /// What is to be read of it.
    pub open spec fn told(self, ctx: Context) -> Fields {
        let keys = map![
            "session_id"@ => ValueView::U64(self.session as u64),
        ];
        let structure = map![
            "version"@ => ValueView::U64(1),
            "vlan"@ => ValueView::U64(self.vlan as u64),
            "cos"@ => ValueView::U64(self.cos as u64),
        ];
        let others = map![
            "index"@ => ValueView::U64(self.index as u64),
            "truncated"@ => ValueView::Bool(self.truncated),
        ];
        wire::shown(ctx, keys, structure, others)
    }
}

/// A Type II header is read as it was written, and carries an Ethernet frame.
pub proof fn erspan_type_two_reads_what_was_written(h: ErspanTypeTwo, payload: Seq<u8>, ctx: Context)
    requires
        h.fits(),
    ensures
        Erspan.spec_parse(h.written() + payload, ctx) == Ok::<Parsed, ParseError>(
            Parsed { header_len: 8, fields: h.told(ctx), hint: Hint::ByProtocol("ethernet") },
        ),
{
    let p = h.parts();
    let b = h.written() + payload;
    wire::parts_stand(p, payload);
    assert(p[0].len() == 2);
    assert(wire::offset(p, 1) == 2);
    assert(p[1].len() == 2);
    assert(wire::offset(p, 2) == 4);
    assert(p[2].len() == 4);
    assert(wire::offset(p, 3) == 8);
    wire::read16(b, 0, (0x1000 + h.vlan) as u16);
    wire::read16(b, 2, h.second());
    wire::read32(b, 4, (h.reserved * 0x10_0000 + h.index) as u32);
    wire::bits16((0x1000 + h.vlan) as u16);
    wire::bits16(h.second());
    lemma_second(
        h.cos as int,
        h.encap as int,
        wire::bit(h.truncated),
        h.session as int,
    );
    wire::bits32((h.reserved * 0x10_0000 + h.index) as u32);
    lemma_third(h.reserved as int, h.index as int);
    assert(erspan::version(b) == 1);
    assert(erspan::type_ii(b, ctx)->Ok_0.fields =~= h.told(ctx));
}

/// Two such headers are of one conversation exactly if they have the same
/// qualifier.
pub proof fn erspan_type_two_tells_conversations(h: ErspanTypeTwo, g: ErspanTypeTwo, ctx: Context)
    requires
        ctx.depth is Keys,
        h.fits(),
        g.fits(),
    ensures
        wire::is_keyed_by(Erspan.spec_identity(), (KeyField { a: "session_id", b: None })),
        wire::one_conversation(Erspan.spec_identity()->0, h.told(ctx), g.told(ctx)) <==> h.session == g.session,
{
    let kf = KeyField { a: "session_id", b: None };
    let identity = Erspan.spec_identity()->0;
    assert(identity.key =~= seq![kf]);
    wire::qualifiers_tell_conversations(identity, kf, h.told(ctx), g.told(ctx));
}

/// The parts of an ERSPAN Type III header.
pub ghost struct ErspanTypeThree {
    pub vlan: u16,
    pub cos: u8,
    pub encap: u8,
    pub truncated: bool,
    pub session: u16,
    pub timestamp: u32,
    pub sgt: u16,
    pub p: bool,
    pub frame_type: u8,
    pub other: u16,
    pub subheader: Option<Seq<u8>>,
}

impl ErspanTypeThree {
    /// Whether every part has room where it stands.
    pub open spec fn fits(self) -> bool {
        &&& self.vlan < 0x1000
        &&& self.cos < 8
        &&& self.encap < 4
        &&& self.session < 0x400
        &&& self.frame_type < 32
        &&& self.other < 0x200
        &&& self.subheader matches Some(s) ==> s.len() == 8
    }

    pub open spec fn second(self) -> u16 {
        (self.cos * 0x2000 + self.encap * 0x800 + wire::bit(self.truncated) * 0x400
            + self.session) as u16
    }

    pub open spec fn last(self) -> u16 {
        (wire::bit(self.p) * 0x8000 + self.frame_type * 0x400 + self.other * 2 + wire::bit(
            self.subheader is Some,
        )) as u16
    }

    pub open spec fn subheader_part(self) -> Seq<u8> {
        match self.subheader {
            Some(s) => s,
            None => Seq::empty(),
        }
    }

    pub open spec fn parts(self) -> Seq<Seq<u8>> {
        seq![
            wire::w16((0x2000 + self.vlan) as u16),
            wire::w16(self.second()),
            wire::w32(self.timestamp),
            wire::w16(self.sgt),
            wire::w16(self.last()),
            self.subheader_part(),
        ]
    }

    /// The header as it is on the wire.
    pub open spec fn written(self) -> Seq<u8> {
        wire::laid_out(self.parts())
    }

    /// What is to be read of it.
    pub open spec fn told(self, ctx: Context) -> Fields {
        let keys = map![
            "session_id"@ => ValueView::U64(self.session as u64),
        ];
        let structure = map![
            "version"@ => ValueView::U64(2),
            "vlan"@ => ValueView::U64(self.vlan as u64),
            "cos"@ => ValueView::U64(self.cos as u64),
        ];
        let others = map![
            "timestamp"@ => ValueView::U64(self.timestamp as u64),
            "sgt"@ => ValueView::U64(self.sgt as u64),
            "frame_type"@ => ValueView::U64(self.frame_type as u64),
            "truncated"@ => ValueView::Bool(self.truncated),
        ];
        wire::shown(ctx, keys, structure, others)
    }
}

/// A Type III header is read as it was written. Frame type zero is Ethernet; of others
/// nothing is known.
pub proof fn erspan_type_three_reads_what_was_written(h: ErspanTypeThree, payload: Seq<u8>, ctx: Context)
    requires
        h.fits(),
    ensures
        Erspan.spec_parse(h.written() + payload, ctx) == Ok::<Parsed, ParseError>(
            Parsed { header_len: 12 + h.subheader_part().len() as int, fields: h.told(ctx), hint: if h.frame_type == 0 {
                Hint::ByProtocol("ethernet")
            } else {
                Hint::Unknown
            } },
        ),
{
    let p = h.parts();
    let b = h.written() + payload;
    wire::parts_stand(p, payload);
    assert(p[0].len() == 2);
    assert(wire::offset(p, 1) == 2);
    assert(p[1].len() == 2);
    assert(wire::offset(p, 2) == 4);
    assert(p[2].len() == 4);
    assert(wire::offset(p, 3) == 8);
    assert(p[3].len() == 2);
    assert(wire::offset(p, 4) == 10);
    assert(p[4].len() == 2);
    assert(wire::offset(p, 5) == 12);
    assert(p[5] == h.subheader_part());
    assert(wire::offset(p, 6) == 12 + h.subheader_part().len());
    wire::read16(b, 0, (0x2000 + h.vlan) as u16);
    wire::read16(b, 2, h.second());
    wire::read32(b, 4, h.timestamp);
    wire::read16(b, 8, h.sgt);
    wire::read16(b, 10, h.last());
    assert(wire::stands(b, 12, p[5]));
    wire::bits16((0x2000 + h.vlan) as u16);
    wire::bits16(h.second());
    lemma_second(
        h.cos as int,
        h.encap as int,
        wire::bit(h.truncated),
        h.session as int,
    );
    wire::bits16(h.last());
    lemma_last(
        wire::bit(h.p),
        h.frame_type as int,
        h.other as int,
        wire::bit(h.subheader is Some),
    );
    assert(erspan::type_iii(b, ctx)->Ok_0.fields =~= h.told(ctx));
}

/// The parts of an L2TPv3 data message over UDP.
pub ghost struct L2tpv3Data {
    pub other: u16,
    pub reserved: u16,
    pub session: u32,
}

impl L2tpv3Data {
    /// Whether every part has room where it stands.
    pub open spec fn fits(self) -> bool {
        &&& self.other < 0x800
    }

    pub open spec fn parts(self) -> Seq<Seq<u8>> {
        seq![
            wire::w32(((self.other * 16 + 3) * 0x1_0000 + self.reserved) as u32),
            wire::w32(self.session),
        ]
    }

    /// The message as it is on the wire (RFC 3931, 4.1.2).
    pub open spec fn written(self) -> Seq<u8> {
        wire::laid_out(self.parts())
    }

    /// What is to be read of it.
    pub open spec fn told(self, ctx: Context) -> Fields {
        let keys = map![
            "session_id"@ => ValueView::U64(self.session as u64),
        ];
        let structure = map![
            "t_bit"@ => ValueView::Bool(false),
        ];
        let others = Map::<Seq<char>, ValueView>::empty();
        wire::shown(ctx, keys, structure, others)
    }
}

/// A data message over UDP is read as it was written, and carries an Ethernet frame.
pub proof fn l2tpv3_data_reads_what_was_written(h: L2tpv3Data, payload: Seq<u8>, ctx: Context)
    requires
        h.fits(),
        ctx.follows("udp"@),
    ensures
        L2tpv3.spec_parse(h.written() + payload, ctx) == Ok::<Parsed, ParseError>(
            Parsed { header_len: 8, fields: h.told(ctx), hint: Hint::ByProtocol("ethernet") },
        ),
{
    let p = h.parts();
    let b = h.written() + payload;
    wire::parts_stand(p, payload);
    assert(p[0].len() == 4);
    assert(wire::offset(p, 1) == 4);
    assert(p[1].len() == 4);
    assert(wire::offset(p, 2) == 8);
    wire::read32(b, 0, ((h.other * 16 + 3) * 0x1_0000 + h.reserved) as u32);
    wire::read32(b, 4, h.session);
    let w = ((h.other * 16 + 3) * 0x1_0000 + h.reserved) as u32;
    wire::bits32(w);
    assert(w / 0x1_0000 == h.other * 16 + 3);
    assert(w / 0x8000_0000 == 0);
    assert(l2tpv3::data_fields(b, ctx) =~= h.told(ctx));
}

/// Two such headers are of one conversation exactly if they have the same
/// qualifier.
pub proof fn l2tpv3_data_tells_conversations(h: L2tpv3Data, g: L2tpv3Data, ctx: Context)
    requires
        ctx.depth is Keys,
        h.fits(),
        g.fits(),
    ensures
        wire::is_keyed_by(L2tpv3.spec_identity(), (KeyField { a: "session_id", b: None })),
        wire::one_conversation(L2tpv3.spec_identity()->0, h.told(ctx), g.told(ctx)) <==> h.session == g.session,
{
    let kf = KeyField { a: "session_id", b: None };
    let identity = L2tpv3.spec_identity()->0;
    assert(identity.key =~= seq![kf]);
    wire::qualifiers_tell_conversations(identity, kf, h.told(ctx), g.told(ctx));
}

/// The parts of an L2TPv3 message directly over IP.
pub ghost struct L2tpv3Direct {
    pub session: u32,
}

impl L2tpv3Direct {
    pub open spec fn parts(self) -> Seq<Seq<u8>> {
        seq![
            wire::w32(self.session),
        ]
    }

    /// The message as it is on the wire (RFC 3931, 4.1.1).
    pub open spec fn written(self) -> Seq<u8> {
        wire::laid_out(self.parts())
    }

    /// What is to be read of it.
    pub open spec fn told(self, ctx: Context) -> Fields {
        let keys = map![
            "session_id"@ => ValueView::U64(self.session as u64),
        ];
        let structure = map![
            "t_bit"@ => ValueView::Bool(false),
        ];
        let others = Map::<Seq<char>, ValueView>::empty();
        wire::shown(ctx, keys, structure, others)
    }
}

/// A message over IP is read as it was written, and carries an Ethernet frame.
pub proof fn l2tpv3_direct_reads_what_was_written(h: L2tpv3Direct, payload: Seq<u8>, ctx: Context)
    requires
        !ctx.follows("udp"@),
    ensures
        L2tpv3.spec_parse(h.written() + payload, ctx) == Ok::<Parsed, ParseError>(
            Parsed { header_len: 4, fields: h.told(ctx), hint: Hint::ByProtocol("ethernet") },
        ),
{
    let p = h.parts();
    let b = h.written() + payload;
    wire::parts_stand(p, payload);
    assert(p[0].len() == 4);
    assert(wire::offset(p, 1) == 4);
    wire::read32(b, 0, h.session);
    assert(l2tpv3::data_fields(b, ctx) =~= h.told(ctx));
}

/// The parts of an L2TPv3 control message.
pub ghost struct L2tpv3Control {
    pub other: u16,
    pub length: u16,
    pub connection: u32,
    pub ns: u16,
    pub nr: u16,
}

impl L2tpv3Control {
    /// Whether every part has room where it stands.
    pub open spec fn fits(self) -> bool {
        &&& self.other < 0x800
    }

    pub open spec fn parts(self) -> Seq<Seq<u8>> {
        seq![
            wire::w32(((0x8000 + self.other * 16 + 3) * 0x1_0000 + self.length) as u32),
            wire::w32(self.connection),
            wire::w16(self.ns),
            wire::w16(self.nr),
        ]
    }

    /// The message as it is on the wire (RFC 3931, 3.2.1).
    pub open spec fn written(self) -> Seq<u8> {
        wire::laid_out(self.parts())
    }

    /// What is to be read of it.
    pub open spec fn told(self, ctx: Context) -> Fields {
        let keys = Map::<Seq<char>, ValueView>::empty();
        let structure = map![
            "t_bit"@ => ValueView::Bool(true),
            "control_connection_id"@ => ValueView::U64(self.connection as u64),
        ];
        let others = Map::<Seq<char>, ValueView>::empty();
        wire::shown(ctx, keys, structure, others)
    }
}

/// A control message is read as it was written; it belongs to no session.
pub proof fn l2tpv3_control_reads_what_was_written(h: L2tpv3Control, payload: Seq<u8>, ctx: Context)
    requires
        h.fits(),
        ctx.follows("udp"@),
    ensures
        L2tpv3.spec_parse(h.written() + payload, ctx) == Ok::<Parsed, ParseError>(
            Parsed { header_len: 12, fields: h.told(ctx), hint: Hint::Terminal },
        ),
{
    let p = h.parts();
    let b = h.written() + payload;
    wire::parts_stand(p, payload);
    assert(p[0].len() == 4);
    assert(wire::offset(p, 1) == 4);
    assert(p[1].len() == 4);
    assert(wire::offset(p, 2) == 8);
    assert(p[2].len() == 2);
    assert(wire::offset(p, 3) == 10);
    assert(p[3].len() == 2);
    assert(wire::offset(p, 4) == 12);
    wire::read32(b, 0, ((0x8000 + h.other * 16 + 3) * 0x1_0000 + h.length) as u32);
    wire::read32(b, 4, h.connection);
    wire::read16(b, 8, h.ns);
    wire::read16(b, 10, h.nr);
    let w = ((0x8000 + h.other * 16 + 3) * 0x1_0000 + h.length) as u32;
    wire::bits32(w);
    assert(w / 0x1_0000 == 0x8000 + h.other * 16 + 3);
    assert(w / 0x8000_0000 == 1);
    assert(l2tpv3::control_fields(b, ctx) =~= h.told(ctx));
}

/// The parts of a GTP-U header without extension headers. Where any of the three flags
/// is set, the optional block is there.
pub ghost struct GtpUHeader {
    pub spare: bool,
    pub e: bool,
    pub s: bool,
    pub pn: bool,
    pub kind: u8,
    pub length: u16,
    pub teid: u32,
    pub sequence: u16,
    pub n_pdu: u8,
}

impl GtpUHeader {
    pub open spec fn flags(self) -> int {
        32 + 16 + wire::bit(self.spare) * 8 + wire::bit(self.e) * 4 + wire::bit(self.s) * 2
            + wire::bit(self.pn)
    }

    pub open spec fn has_block(self) -> bool {
        self.e || self.s || self.pn
    }

    pub open spec fn sequence_part(self) -> Seq<u8> {
        if self.has_block() {
            wire::w16(self.sequence)
        } else {
            Seq::empty()
        }
    }

    pub open spec fn rest_part(self) -> Seq<u8> {
        if self.has_block() {
            seq![self.n_pdu, 0]
        } else {
            Seq::empty()
        }
    }

    pub open spec fn parts(self) -> Seq<Seq<u8>> {
        seq![
            seq![self.flags() as u8],
            seq![self.kind],
            wire::w16(self.length),
            wire::w32(self.teid),
            self.sequence_part(),
            self.rest_part(),
        ]
    }

    /// The header as it is on the wire (3GPP TS 29.281, 5.1).
    pub open spec fn written(self) -> Seq<u8> {
        wire::laid_out(self.parts())
    }

    /// What is to be read of it.
    pub open spec fn told(self, ctx: Context) -> Fields {
        let keys = map![
            "teid"@ => ValueView::U64(self.teid as u64),
        ];
        let structure = map![
            "message_type"@ => ValueView::U64(self.kind as u64),
            "flags"@ => ValueView::U64(self.flags() as u64),
            "length"@ => ValueView::U64(self.length as u64),
        ];
        let others = Map::<Seq<char>, ValueView>::empty();
        let others = wire::with(others, self.s, "sequence_number"@, ValueView::U64(self.sequence as u64));
        wire::shown(ctx, keys, structure, others)
    }
}

/// A GTP-U header is read as it was written: user data is an IP packet of either version,
/// all else is signalling.
pub proof fn gtp_u_reads_what_was_written(h: GtpUHeader, payload: Seq<u8>, ctx: Context)
    ensures
        GtpU.spec_parse(h.written() + payload, ctx) == Ok::<Parsed, ParseError>(
            Parsed { header_len: if h.has_block() {
                12int
            } else {
                8
            }, fields: h.told(ctx), hint: if h.kind == 255 {
                Hint::Unknown
            } else {
                Hint::Terminal
            } },
        ),
{
    let p = h.parts();
    let b = h.written() + payload;
    wire::parts_stand(p, payload);
    assert(p[0].len() == 1);
    assert(wire::offset(p, 1) == 1);
    assert(p[1].len() == 1);
    assert(wire::offset(p, 2) == 2);
    assert(p[2].len() == 2);
    assert(wire::offset(p, 3) == 4);
    assert(p[3].len() == 4);
    assert(wire::offset(p, 4) == 8);
    assert(p[4] == h.sequence_part());
    assert(wire::offset(p, 5) == 8 + h.sequence_part().len());
    assert(p[5] == h.rest_part());
    assert(wire::offset(p, 6) == 8 + h.sequence_part().len() + h.rest_part().len());
    wire::read_byte(b, 0, h.flags() as u8);
    wire::read_byte(b, 1, h.kind);
    wire::read16(b, 2, h.length);
    wire::read32(b, 4, h.teid);
    assert(wire::stands(b, 8, p[4]));
    assert(wire::stands(b, (8 + h.sequence_part().len()) as int, p[5]));
    wire::bits8(b[0]);
    let f = b[0];
    assert(f / 32 == 1 && f / 16 % 2 == 1 && f / 2 % 2 == wire::bit(h.s));
    assert(f % 8 == wire::bit(h.e) * 4 + wire::bit(h.s) * 2 + wire::bit(h.pn));
    if h.has_block() {
        wire::read16(b, 8, h.sequence);
        let rest = b.subrange(10, 12);
        assert(rest[0] == seq![h.n_pdu, 0u8][0] && rest[1] == seq![h.n_pdu, 0u8][1]);
        assert(b[11] == rest[1]);
    }
    assert(gtp_u::fields(b, ctx) =~= h.told(ctx));
}

/// Two such headers are of one conversation exactly if they have the same
/// qualifier.
pub proof fn gtp_u_tells_conversations(h: GtpUHeader, g: GtpUHeader, ctx: Context)
    requires
        ctx.depth is Keys,
    ensures
        wire::is_keyed_by(GtpU.spec_identity(), (KeyField { a: "teid", b: None })),
        wire::one_conversation(GtpU.spec_identity()->0, h.told(ctx), g.told(ctx)) <==> h.teid == g.teid,
{
    let kf = KeyField { a: "teid", b: None };
    let identity = GtpU.spec_identity()->0;
    assert(identity.key =~= seq![kf]);
    wire::qualifiers_tell_conversations(identity, kf, h.told(ctx), g.told(ctx));
}

/// A GTP-U extension header: its length in 4-byte words, its content, and the type of
/// the next one.
pub open spec fn extended(contents: Seq<Seq<u8>>, kinds: Seq<u8>) -> Seq<u8>
    decreases contents.len(),
{
    if contents.len() == 0 {
        Seq::empty()
    } else {
        seq![((contents[0].len() + 2) / 4) as u8] + contents[0] + seq![
            kind_of(kinds.drop_first()),
        ] + extended(contents.drop_first(), kinds.drop_first())
    }
}

/// The type of the first of some extension headers; zero where there is none.
pub open spec fn kind_of(kinds: Seq<u8>) -> u8 {
    if kinds.len() == 0 {
        0
    } else {
        kinds[0]
    }
}

/// Extension headers are walked to their end.
pub proof fn gtp_u_extensions_are_walked(
    contents: Seq<Seq<u8>>,
    kinds: Seq<u8>,
    head: Seq<u8>,
    rest: Seq<u8>,
)
    requires
        contents.len() == kinds.len(),
        forall|i: int| 0 <= i < kinds.len() ==> #[trigger] kinds[i] != 0,
        forall|i: int|
            0 <= i < contents.len() ==> (#[trigger] contents[i]).len() % 4 == 2
                && contents[i].len() <= 1018,
    ensures
        gtp_u::extensions_end(
            head + extended(contents, kinds) + rest,
            head.len() as int,
            kind_of(kinds),
        ) == Ok::<int, ParseError>((head.len() + extended(contents, kinds).len()) as int),
    decreases contents.len(),
{
    if contents.len() > 0 {
        let c = contents.drop_first();
        let k = kinds.drop_first();
        let b = head + extended(contents, kinds) + rest;
        let p = head.len() as int;
        let n = contents[0].len() as int;
        let first = seq![((n + 2) / 4) as u8] + contents[0] + seq![kind_of(k)];
        assert(extended(contents, kinds) == first + extended(c, k));
        assert(head + first + extended(c, k) + rest =~= b);
        assert forall|i: int| 0 <= i < k.len() implies #[trigger] k[i] != 0 by {
            assert(k[i] == kinds[i + 1]);
        }
        assert forall|i: int| 0 <= i < c.len() implies (#[trigger] c[i]).len() % 4 == 2
            && c[i].len() <= 1018 by {
            assert(c[i] == contents[i + 1]);
        }
        gtp_u_extensions_are_walked(c, k, head + first, rest);
        assert(first.len() == n + 2);
        assert(b[p] == first[0]);
        assert(4 * b[p] == n + 2);
        assert(b[p + n + 1] == first[n + 1]);
        assert(kinds[0] != 0);
    }
}

} // verus!

//! The internet layer: IPv4, IPv6, ICMP, IGMP and the IPsec headers.
use vstd::prelude::*;

use crate::bytes::{self, ParseError};
use crate::flows::key;
use crate::identity::KeyField;
use crate::layer::{Context, Hint, LayerPlugin, Parsed, RouteId};
use crate::plugins::ah::{self, Ah};
use crate::plugins::esp::{self, Esp};
use crate::plugins::icmpv4::{self, Icmpv4};
use crate::plugins::icmpv6::{self, Icmpv6};
use crate::plugins::igmp::{self, Igmp};
use crate::plugins::ipv4::{self, Ipv4};
use crate::plugins::ipv6::{self, Ipv6};
use crate::plugins::wire;
use crate::value::{Fields, ValueView};

verus! {

/// The parts of an IPv4 header.
pub ghost struct Ipv4Header {
    pub dscp: u8,
    pub ecn: u8,
    pub total_len: u16,
    pub id: u16,
    pub flags: u8,
    pub frag_offset: u16,
    pub ttl: u8,
    pub protocol: u8,
    pub checksum: u16,
    pub src: Seq<u8>,
    pub dst: Seq<u8>,
    pub options: Seq<u8>,
}

impl Ipv4Header {
    /// Whether every part has room where it stands.
    pub open spec fn fits(self) -> bool {
        &&& self.dscp < 64
        &&& self.ecn < 4
        &&& self.flags < 8
        &&& self.frag_offset < 0x2000
        &&& self.src.len() == 4
        &&& self.dst.len() == 4
        &&& self.options.len() % 4 == 0
        &&& self.options.len() <= 40
    }

    /// The header's length in 32-bit words.
    pub open spec fn ihl(self) -> int {
        5 + self.options.len() as int / 4
    }

    pub open spec fn parts(self) -> Seq<Seq<u8>> {
        seq![
            seq![(4 * 16 + self.ihl()) as u8],
            seq![(self.dscp * 4 + self.ecn) as u8],
            wire::w16(self.total_len),
            wire::w16(self.id),
            wire::w16((self.flags * 0x2000 + self.frag_offset) as u16),
            seq![self.ttl],
            seq![self.protocol],
            wire::w16(self.checksum),
            self.src,
            self.dst,
            self.options,
        ]
    }

    /// The header as it is on the wire (RFC 791).
    pub open spec fn written(self) -> Seq<u8> {
        wire::laid_out(self.parts())
    }

    /// What is to be read of it.
    pub open spec fn told(self, ctx: Context) -> Fields {
        let keys = map![
            "src_addr"@ => ValueView::Bytes(self.src),
            "dst_addr"@ => ValueView::Bytes(self.dst),
        ];
        let structure = map![
            "protocol"@ => ValueView::U64(self.protocol as u64),
            "ttl"@ => ValueView::U64(self.ttl as u64),
            "total_len"@ => ValueView::U64(self.total_len as u64),
            "flags"@ => ValueView::U64(self.flags as u64),
            "frag_offset"@ => ValueView::U64(self.frag_offset as u64),
            "ihl"@ => ValueView::U64(self.ihl() as u64),
        ];
        let others = map![
            "dscp"@ => ValueView::U64(self.dscp as u64),
            "ecn"@ => ValueView::U64(self.ecn as u64),
            "id"@ => ValueView::U64(self.id as u64),
            "checksum"@ => ValueView::U64(self.checksum as u64),
        ];
        let others = wire::with(others, self.options.len() > 0, "options"@, ValueView::Bytes(self.options));
        wire::shown(ctx, keys, structure, others)
    }
}

/// An IPv4 header is read as it was written.
pub proof fn ipv4_reads_what_was_written(h: Ipv4Header, payload: Seq<u8>, ctx: Context)
    requires
        h.fits(),
    ensures
        Ipv4.spec_parse(h.written() + payload, ctx) == Ok::<Parsed, ParseError>(
            Parsed { header_len: 20 + h.options.len() as int, fields: h.told(ctx), hint: if h.frag_offset > 0 {
                Hint::Terminal
            } else {
                Hint::Route(RouteId::IpProtocol(h.protocol))
            } },
        ),
{
    let p = h.parts();
    let b = h.written() + payload;
    wire::parts_stand(p, payload);
    assert(p[0].len() == 1);
    assert(wire::offset(p, 1) == 1);
    assert(p[1].len() == 1);
    assert(wire::offset(p, 2) == 2);
    assert(p[2].len() == 2);
    assert(wire::offset(p, 3) == 4);
    assert(p[3].len() == 2);
    assert(wire::offset(p, 4) == 6);
    assert(p[4].len() == 2);
    assert(wire::offset(p, 5) == 8);
    assert(p[5].len() == 1);
    assert(wire::offset(p, 6) == 9);
    assert(p[6].len() == 1);
    assert(wire::offset(p, 7) == 10);
    assert(p[7].len() == 2);
    assert(wire::offset(p, 8) == 12);
    assert(p[8].len() == 4);
    assert(wire::offset(p, 9) == 16);
    assert(p[9].len() == 4);
    assert(wire::offset(p, 10) == 20);
    assert(p[10] == h.options);
    assert(wire::offset(p, 11) == 20 + h.options.len());
    wire::read_byte(b, 0, (4 * 16 + h.ihl()) as u8);
    wire::read_byte(b, 1, (h.dscp * 4 + h.ecn) as u8);
    wire::read16(b, 2, h.total_len);
    wire::read16(b, 4, h.id);
    wire::read16(b, 6, (h.flags * 0x2000 + h.frag_offset) as u16);
    wire::read_byte(b, 8, h.ttl);
    wire::read_byte(b, 9, h.protocol);
    wire::read16(b, 10, h.checksum);
    assert(wire::stands(b, 12, p[8]));
    assert(wire::stands(b, 16, p[9]));
    assert(wire::stands(b, 20, p[10]));
    wire::bits8(b[0]);
    wire::bits8(b[1]);
    wire::bits16((h.flags * 0x2000 + h.frag_offset) as u16);
    assert(ipv4::header_end(b) == 20 + h.options.len());
    assert(ipv4::fields(b, ctx) =~= h.told(ctx));
}

/// Two such headers are of one conversation exactly if they have the same two endpoints, in
/// either direction; and the two directions differ.
pub proof fn ipv4_tells_conversations(h: Ipv4Header, g: Ipv4Header, ctx: Context)
    requires
        ctx.depth is Keys,
        h.fits(),
        g.fits(),
    ensures
        wire::is_keyed_by(Ipv4.spec_identity(), (KeyField { a: "src_addr", b: Some("dst_addr") })),
        wire::one_conversation(Ipv4.spec_identity()->0, h.told(ctx), g.told(ctx)) <==> ((h.src == g.src && h.dst == g.dst) || (h.src == g.dst && h.dst == g.src)),
        h.src == g.dst && h.dst == g.src && h.src != h.dst ==> key::key_of(
            Ipv4.spec_identity()->0,
            h.told(ctx),
        )->Ok_0.1 == key::key_of(Ipv4.spec_identity()->0, g.told(ctx))->Ok_0.1.flipped(),
{
    let kf = KeyField { a: "src_addr", b: Some("dst_addr") };
    reveal_strlit("src_addr");
    reveal_strlit("dst_addr");
    assert("src_addr"@[0] != "dst_addr"@[0]);
    let identity = Ipv4.spec_identity()->0;
    assert(identity.key =~= seq![kf]);
    wire::pairs_tell_conversations(identity, kf, h.told(ctx), g.told(ctx));
}

/// The parts of a fixed IPv6 header that no extension header follows.
pub ghost struct Ipv6Header {
    pub traffic_class: u8,
    pub flow_label: u32,
    pub payload_len: u16,
    pub next_header: u8,
    pub hop_limit: u8,
    pub src: Seq<u8>,
    pub dst: Seq<u8>,
}

impl Ipv6Header {
    /// Whether every part has room where it stands.
    pub open spec fn fits(self) -> bool {
        &&& self.flow_label < 0x10_0000
        &&& self.src.len() == 16
        &&& self.dst.len() == 16
    }

    pub open spec fn parts(self) -> Seq<Seq<u8>> {
        seq![
            wire::w32((0x6000_0000 + self.traffic_class * 0x10_0000 + self.flow_label) as u32),
            wire::w16(self.payload_len),
            seq![self.next_header],
            seq![self.hop_limit],
            self.src,
            self.dst,
        ]
    }

    /// The header as it is on the wire (RFC 8200).
    pub open spec fn written(self) -> Seq<u8> {
        wire::laid_out(self.parts())
    }

    /// What is to be read of it.
    pub open spec fn told(self, ctx: Context) -> Fields {
        let keys = map![
            "src_addr"@ => ValueView::Bytes(self.src),
            "dst_addr"@ => ValueView::Bytes(self.dst),
        ];
        let structure = map![
            "next_header"@ => ValueView::U64(self.next_header as u64),
            "hop_limit"@ => ValueView::U64(self.hop_limit as u64),
            "payload_len"@ => ValueView::U64(self.payload_len as u64),
        ];
        let others = map![
            "traffic_class"@ => ValueView::U64(self.traffic_class as u64),
            "flow_label"@ => ValueView::U64(self.flow_label as u64),
        ];
        wire::shown(ctx, keys, structure, others)
    }
}

/// An IPv6 header without extension headers is read as it was written.
pub proof fn ipv6_reads_what_was_written(h: Ipv6Header, payload: Seq<u8>, ctx: Context)
    requires
        h.fits(),
        h.next_header != 0 && h.next_header != 43 && h.next_header != 44 && h.next_header != 60,
    ensures
        Ipv6.spec_parse(h.written() + payload, ctx) == Ok::<Parsed, ParseError>(
            Parsed { header_len: 40, fields: h.told(ctx), hint: Hint::Route(RouteId::IpProtocol(h.next_header)) },
        ),
{
    let p = h.parts();
    let b = h.written() + payload;
    wire::parts_stand(p, payload);
    assert(p[0].len() == 4);
    assert(wire::offset(p, 1) == 4);
    assert(p[1].len() == 2);
    assert(wire::offset(p, 2) == 6);
    assert(p[2].len() == 1);
    assert(wire::offset(p, 3) == 7);
    assert(p[3].len() == 1);
    assert(wire::offset(p, 4) == 8);
    assert(p[4].len() == 16);
    assert(wire::offset(p, 5) == 24);
    assert(p[5].len() == 16);
    assert(wire::offset(p, 6) == 40);
    wire::read32(b, 0, (0x6000_0000 + h.traffic_class * 0x10_0000 + h.flow_label) as u32);
    wire::read16(b, 4, h.payload_len);
    wire::read_byte(b, 6, h.next_header);
    wire::read_byte(b, 7, h.hop_limit);
    assert(wire::stands(b, 8, p[4]));
    assert(wire::stands(b, 24, p[5]));
    let word = (0x6000_0000 + h.traffic_class * 0x10_0000 + h.flow_label) as u32;
    wire::bits32(word);
    assert(word / 0x10_0000 % 0x100 == h.traffic_class);
    assert(ipv6::fields(b, h.next_header, ctx) =~= h.told(ctx));
}

/// Two such headers are of one conversation exactly if they have the same two endpoints, in
/// either direction; and the two directions differ.
pub proof fn ipv6_tells_conversations(h: Ipv6Header, g: Ipv6Header, ctx: Context)
    requires
        ctx.depth is Keys,
        h.fits(),
        g.fits(),
    ensures
        wire::is_keyed_by(Ipv6.spec_identity(), (KeyField { a: "src_addr", b: Some("dst_addr") })),
        wire::one_conversation(Ipv6.spec_identity()->0, h.told(ctx), g.told(ctx)) <==> ((h.src == g.src && h.dst == g.dst) || (h.src == g.dst && h.dst == g.src)),
        h.src == g.dst && h.dst == g.src && h.src != h.dst ==> key::key_of(
            Ipv6.spec_identity()->0,
            h.told(ctx),
        )->Ok_0.1 == key::key_of(Ipv6.spec_identity()->0, g.told(ctx))->Ok_0.1.flipped(),
{
    let kf = KeyField { a: "src_addr", b: Some("dst_addr") };
    reveal_strlit("src_addr");
    reveal_strlit("dst_addr");
    assert("src_addr"@[0] != "dst_addr"@[0]);
    let identity = Ipv6.spec_identity()->0;
    assert(identity.key =~= seq![kf]);
    wire::pairs_tell_conversations(identity, kf, h.told(ctx), g.told(ctx));
}

/// An IPv6 extension header in front of the rest of a chain: hop-by-hop options,
/// routing or destination options, of `8 * words + 8` bytes; or a fragment header.
pub ghost struct Extension {
    pub kind: u8,
    pub words: u8,
    pub content: Seq<u8>,
}

impl Extension {
    pub open spec fn fits(self) -> bool {
        &&& self.kind == 0 || self.kind == 43 || self.kind == 60
        &&& self.content.len() == 6 + 8 * self.words
    }
}

/// The extension headers of a chain one after the other, each naming what follows it.
pub open spec fn chained(list: Seq<Extension>, last: u8) -> Seq<u8>
    decreases list.len(),
{
    if list.len() == 0 {
        Seq::empty()
    } else {
        let rest = list.drop_first();
        seq![leads_to(rest, last), list[0].words] + list[0].content + chained(rest, last)
    }
}

/// The number of what a chain begins with.
pub open spec fn leads_to(list: Seq<Extension>, last: u8) -> u8 {
    if list.len() == 0 {
        last
    } else {
        list[0].kind
    }
}

/// A chain of up to eight extension headers is walked to its end, and what follows it
/// is what its last header names.
pub proof fn chains_are_walked(
    list: Seq<Extension>,
    last: u8,
    head: Seq<u8>,
    rest: Seq<u8>,
    count: int,
)
    requires
        forall|i: int| 0 <= i < list.len() ==> (#[trigger] list[i]).fits(),
        !ipv6::is_extension(last),
        0 <= count,
        count + list.len() <= 8,
    ensures
        ipv6::chain(
            head + chained(list, last) + rest,
            head.len() as int,
            leads_to(list, last),
            0,
            count,
        ) == Ok::<ipv6::Chain, ParseError>(
            ipv6::Chain {
                end: (head.len() + chained(list, last).len()) as int,
                next: last,
                fragment_offset: 0,
            },
        ),
    decreases list.len(),
{
    let b = head + chained(list, last) + rest;
    let p = head.len() as int;
    if list.len() > 0 {
        let tail = list.drop_first();
        let first = seq![leads_to(tail, last), list[0].words] + list[0].content;
        assert(list[0].fits());
        assert forall|i: int| 0 <= i < tail.len() implies (#[trigger] tail[i]).fits() by {
            assert(tail[i] == list[i + 1]);
        }
        assert(chained(list, last) == first + chained(tail, last));
        assert(head + first + chained(tail, last) + rest =~= b);
        chains_are_walked(tail, last, head + first, rest, count + 1);
        assert(b[p] == first[0] && b[p + 1] == first[1]);
    }
}

/// The parts of a fragment header.
pub ghost struct Fragment {
    pub next: u8,
    pub reserved: u8,
    pub offset: u16,
    pub flags: u8,
    pub id: u32,
}

/// A fragment header says where in its packet the fragment belongs, and what follows.
pub proof fn fragments_are_recognised(f: Fragment, head: Seq<u8>, rest: Seq<u8>, count: int)
    requires
        f.offset < 0x2000,
        f.flags < 8,
        !ipv6::is_extension(f.next),
        0 <= count < 8,
    ensures
        ({
            let parts = seq![
                head,
                seq![f.next],
                seq![f.reserved],
                wire::w16((f.offset * 8 + f.flags) as u16),
                wire::w32(f.id),
            ];
            ipv6::chain(wire::laid_out(parts) + rest, head.len() as int, 44, 0, count) == Ok::<
                ipv6::Chain,
                ParseError,
            >(
                ipv6::Chain {
                    end: head.len() as int + 8,
                    next: f.next,
                    fragment_offset: f.offset,
                },
            )
        }),
{
    let p = seq![
        head,
        seq![f.next],
        seq![f.reserved],
        wire::w16((f.offset * 8 + f.flags) as u16),
        wire::w32(f.id),
    ];
    let b = wire::laid_out(p) + rest;
    let n = head.len() as int;
    let word = (f.offset * 8 + f.flags) as u16;
    wire::parts_stand(p, rest);
    assert(p[0] == head && p[1].len() == 1 && p[2].len() == 1 && p[3].len() == 2 && p[4].len()
        == 4);
    assert(wire::offset(p, 1) == n);
    assert(wire::offset(p, 2) == n + 1);
    assert(wire::offset(p, 3) == n + 2);
    assert(wire::offset(p, 4) == n + 4);
    assert(wire::offset(p, 5) == n + 8);
    wire::read_byte(b, n, f.next);
    wire::read_byte(b, n + 1, f.reserved);
    wire::read16(b, n + 2, word);
    wire::read32(b, n + 4, f.id);
    lemma_fragment(b, n, count, f.next, f.offset, f.flags);
}

proof fn lemma_fragment(b: Seq<u8>, n: int, count: int, next: u8, offset: u16, flags: u8)
    requires
        offset < 0x2000,
        flags < 8,
        !ipv6::is_extension(next),
        0 <= count < 8,
        0 <= n,
        n + 8 <= b.len(),
        b[n] == next,
        bytes::be16(b, n + 2) == offset * 8 + flags,
    ensures
        ipv6::chain(b, n, 44, 0, count) == Ok::<ipv6::Chain, ParseError>(
            ipv6::Chain { end: n + 8, next, fragment_offset: offset },
        ),
{
    wire::bits16(bytes::be16(b, n + 2));
    assert(bytes::be16(b, n + 2) >> 3 == offset);
    assert(ipv6::chain(b, n + 8, next, offset, count + 1) == Ok::<ipv6::Chain, ParseError>(
        ipv6::Chain { end: n + 8, next, fragment_offset: offset },
    ));
}

/// The parts of an ICMP message (RFC 792).
pub ghost struct Icmpv4Message {
    pub kind: u8,
    pub code: u8,
    pub checksum: u16,
    pub rest: Seq<u8>,
}

impl Icmpv4Message {
    /// Whether every part has room where it stands.
    pub open spec fn fits(self) -> bool {
        &&& self.rest.len() == 4
    }

    pub open spec fn parts(self) -> Seq<Seq<u8>> {
        seq![
            seq![self.kind],
            seq![self.code],
            wire::w16(self.checksum),
            self.rest,
        ]
    }

    /// The message as it is on the wire.
    pub open spec fn written(self) -> Seq<u8> {
        wire::laid_out(self.parts())
    }

    /// What is to be read of it.
    pub open spec fn told(self, ctx: Context) -> Fields {
        let keys = Map::<Seq<char>, ValueView>::empty();
        let structure = map![
            "type"@ => ValueView::U64(self.kind as u64),
            "code"@ => ValueView::U64(self.code as u64),
        ];
        let others = map![
            "rest_of_header"@ => ValueView::Bytes(self.rest),
        ];
        wire::shown(ctx, keys, structure, others)
    }
}

/// Such a message is read as it was written.
pub proof fn icmpv4_reads_what_was_written(h: Icmpv4Message, payload: Seq<u8>, ctx: Context)
    requires
        h.fits(),
    ensures
        Icmpv4.spec_parse(h.written() + payload, ctx) == Ok::<Parsed, ParseError>(
            Parsed { header_len: 8, fields: h.told(ctx), hint: Hint::Terminal },
        ),
{
    let p = h.parts();
    let b = h.written() + payload;
    wire::parts_stand(p, payload);
    assert(p[0].len() == 1);
    assert(wire::offset(p, 1) == 1);
    assert(p[1].len() == 1);
    assert(wire::offset(p, 2) == 2);
    assert(p[2].len() == 2);
    assert(wire::offset(p, 3) == 4);
    assert(p[3].len() == 4);
    assert(wire::offset(p, 4) == 8);
    wire::read_byte(b, 0, h.kind);
    wire::read_byte(b, 1, h.code);
    wire::read16(b, 2, h.checksum);
    assert(wire::stands(b, 4, p[3]));
    assert(icmpv4::fields(b, ctx) =~= h.told(ctx));
}

/// The parts of an ICMPv6 message (RFC 4443).
pub ghost struct Icmpv6Message {
    pub kind: u8,
    pub code: u8,
    pub checksum: u16,
    pub rest: Seq<u8>,
}

impl Icmpv6Message {
    /// Whether every part has room where it stands.
    pub open spec fn fits(self) -> bool {
        &&& self.rest.len() == 4
    }

    /// Messages of neighbour and listener discovery have protocols of their own.
    pub open spec fn next(self) -> Hint {
        if 130 <= self.kind <= 137 || self.kind == 143 {
            Hint::Route(RouteId::Custom { space: "icmpv6_type", id: self.kind as u64 })
        } else {
            Hint::Terminal
        }
    }

    pub open spec fn parts(self) -> Seq<Seq<u8>> {
        seq![
            seq![self.kind],
            seq![self.code],
            wire::w16(self.checksum),
            self.rest,
        ]
    }

    /// The message as it is on the wire.
    pub open spec fn written(self) -> Seq<u8> {
        wire::laid_out(self.parts())
    }

    /// What is to be read of it.
    pub open spec fn told(self, ctx: Context) -> Fields {
        let keys = Map::<Seq<char>, ValueView>::empty();
        let structure = map![
            "type"@ => ValueView::U64(self.kind as u64),
            "code"@ => ValueView::U64(self.code as u64),
        ];
        let others = map![
            "rest_of_header"@ => ValueView::Bytes(self.rest),
        ];
        wire::shown(ctx, keys, structure, others)
    }
}

/// Such a message is read as it was written.
pub proof fn icmpv6_reads_what_was_written(h: Icmpv6Message, payload: Seq<u8>, ctx: Context)
    requires
        h.fits(),
    ensures
        Icmpv6.spec_parse(h.written() + payload, ctx) == Ok::<Parsed, ParseError>(
            Parsed { header_len: 8, fields: h.told(ctx), hint: h.next() },
        ),
{
    let p = h.parts();
    let b = h.written() + payload;
    wire::parts_stand(p, payload);
    assert(p[0].len() == 1);
    assert(wire::offset(p, 1) == 1);
    assert(p[1].len() == 1);
    assert(wire::offset(p, 2) == 2);
    assert(p[2].len() == 2);
    assert(wire::offset(p, 3) == 4);
    assert(p[3].len() == 4);
    assert(wire::offset(p, 4) == 8);
    wire::read_byte(b, 0, h.kind);
    wire::read_byte(b, 1, h.code);
    wire::read16(b, 2, h.checksum);
    assert(wire::stands(b, 4, p[3]));
    assert(icmpv6::fields(b, ctx) =~= h.told(ctx));
}

/// The parts of an IGMP message (RFC 2236).
pub ghost struct IgmpMessage {
    pub kind: u8,
    pub max_resp: u8,
    pub checksum: u16,
    pub group: Seq<u8>,
}

impl IgmpMessage {
    /// Whether every part has room where it stands.
    pub open spec fn fits(self) -> bool {
        &&& self.group.len() == 4
    }

    pub open spec fn parts(self) -> Seq<Seq<u8>> {
        seq![
            seq![self.kind],
            seq![self.max_resp],
            wire::w16(self.checksum),
            self.group,
        ]
    }

    /// The message as it is on the wire.
    pub open spec fn written(self) -> Seq<u8> {
        wire::laid_out(self.parts())
    }

    /// What is to be read of it.
    pub open spec fn told(self, ctx: Context) -> Fields {
        let keys = Map::<Seq<char>, ValueView>::empty();
        let structure = map![
            "type"@ => ValueView::U64(self.kind as u64),
            "max_resp"@ => ValueView::U64(self.max_resp as u64),
            "group_addr"@ => ValueView::Bytes(self.group),
        ];
        let others = Map::<Seq<char>, ValueView>::empty();
        wire::shown(ctx, keys, structure, others)
    }
}

/// An IGMP message is read as it was written.
pub proof fn igmp_reads_what_was_written(h: IgmpMessage, payload: Seq<u8>, ctx: Context)
    requires
        h.fits(),
    ensures
        Igmp.spec_parse(h.written() + payload, ctx) == Ok::<Parsed, ParseError>(
            Parsed { header_len: 8, fields: h.told(ctx), hint: Hint::Terminal },
        ),
{
    let p = h.parts();
    let b = h.written() + payload;
    wire::parts_stand(p, payload);
    assert(p[0].len() == 1);
    assert(wire::offset(p, 1) == 1);
    assert(p[1].len() == 1);
    assert(wire::offset(p, 2) == 2);
    assert(p[2].len() == 2);
    assert(wire::offset(p, 3) == 4);
    assert(p[3].len() == 4);
    assert(wire::offset(p, 4) == 8);
    wire::read_byte(b, 0, h.kind);
    wire::read_byte(b, 1, h.max_resp);
    wire::read16(b, 2, h.checksum);
    assert(wire::stands(b, 4, p[3]));
    assert(igmp::fields(b, ctx) =~= h.told(ctx));
}

/// The parts of an authentication header.
pub ghost struct AhHeader {
    pub next_header: u8,
    pub reserved: u16,
    pub spi: u32,
    pub sequence: u32,
    pub icv: Seq<u8>,
}

impl AhHeader {
    /// Whether every part has room where it stands.
    pub open spec fn fits(self) -> bool {
        &&& self.icv.len() % 4 == 0
        &&& self.icv.len() <= 1016
    }

    /// The header's length in 32-bit words, less two.
    pub open spec fn payload_len(self) -> int {
        1 + self.icv.len() as int / 4
    }

    pub open spec fn parts(self) -> Seq<Seq<u8>> {
        seq![
            seq![self.next_header],
            seq![self.payload_len() as u8],
            wire::w16(self.reserved),
            wire::w32(self.spi),
            wire::w32(self.sequence),
            self.icv,
        ]
    }

    /// The header as it is on the wire (RFC 4302).
    pub open spec fn written(self) -> Seq<u8> {
        wire::laid_out(self.parts())
    }

    /// What is to be read of it.
    pub open spec fn told(self, ctx: Context) -> Fields {
        let keys = map![
            "spi"@ => ValueView::U64(self.spi as u64),
        ];
        let structure = map![
            "next_header"@ => ValueView::U64(self.next_header as u64),
            "payload_len"@ => ValueView::U64(self.payload_len() as u64),
            "sequence"@ => ValueView::U64(self.sequence as u64),
        ];
        let others = map![
            "icv"@ => ValueView::Bytes(self.icv),
        ];
        wire::shown(ctx, keys, structure, others)
    }
}

/// An authentication header is read as it was written.
pub proof fn ah_reads_what_was_written(h: AhHeader, payload: Seq<u8>, ctx: Context)
    requires
        h.fits(),
    ensures
        Ah.spec_parse(h.written() + payload, ctx) == Ok::<Parsed, ParseError>(
            Parsed { header_len: 12 + h.icv.len() as int, fields: h.told(ctx), hint: Hint::Route(RouteId::IpProtocol(h.next_header)) },
        ),
{
    let p = h.parts();
    let b = h.written() + payload;
    wire::parts_stand(p, payload);
    assert(p[0].len() == 1);
    assert(wire::offset(p, 1) == 1);
    assert(p[1].len() == 1);
    assert(wire::offset(p, 2) == 2);
    assert(p[2].len() == 2);
    assert(wire::offset(p, 3) == 4);
    assert(p[3].len() == 4);
    assert(wire::offset(p, 4) == 8);
    assert(p[4].len() == 4);
    assert(wire::offset(p, 5) == 12);
    assert(p[5] == h.icv);
    assert(wire::offset(p, 6) == 12 + h.icv.len());
    wire::read_byte(b, 0, h.next_header);
    wire::read_byte(b, 1, h.payload_len() as u8);
    wire::read16(b, 2, h.reserved);
    wire::read32(b, 4, h.spi);
    wire::read32(b, 8, h.sequence);
    assert(wire::stands(b, 12, p[5]));
    assert(ah::header_end(b) == 12 + h.icv.len());
    assert(ah::fields(b, ctx) =~= h.told(ctx));
}

/// Two such headers are of one conversation exactly if they have the same
/// qualifier.
pub proof fn ah_tells_conversations(h: AhHeader, g: AhHeader, ctx: Context)
    requires
        ctx.depth is Keys,
        h.fits(),
        g.fits(),
    ensures
        wire::is_keyed_by(Ah.spec_identity(), (KeyField { a: "spi", b: None })),
        wire::one_conversation(Ah.spec_identity()->0, h.told(ctx), g.told(ctx)) <==> h.spi == g.spi,
{
    let kf = KeyField { a: "spi", b: None };
    let identity = Ah.spec_identity()->0;
    assert(identity.key =~= seq![kf]);
    wire::qualifiers_tell_conversations(identity, kf, h.told(ctx), g.told(ctx));
}

/// The parts of an ESP header that are in the clear.
pub ghost struct EspHeader {
    pub spi: u32,
    pub sequence: u32,
}

impl EspHeader {
    pub open spec fn parts(self) -> Seq<Seq<u8>> {
        seq![
            wire::w32(self.spi),
            wire::w32(self.sequence),
        ]
    }

    /// The header as it is on the wire (RFC 4303).
    pub open spec fn written(self) -> Seq<u8> {
        wire::laid_out(self.parts())
    }

    /// What is to be read of it.
    pub open spec fn told(self, ctx: Context) -> Fields {
        let keys = map![
            "spi"@ => ValueView::U64(self.spi as u64),
        ];
        let structure = map![
            "sequence"@ => ValueView::U64(self.sequence as u64),
        ];
        let others = Map::<Seq<char>, ValueView>::empty();
        wire::shown(ctx, keys, structure, others)
    }
}

/// An ESP header is read as it was written, and what follows it is left alone.
pub proof fn esp_reads_what_was_written(h: EspHeader, payload: Seq<u8>, ctx: Context)
    ensures
        Esp.spec_parse(h.written() + payload, ctx) == Ok::<Parsed, ParseError>(
            Parsed { header_len: 8, fields: h.told(ctx), hint: Hint::Terminal },
        ),
{
    let p = h.parts();
    let b = h.written() + payload;
    wire::parts_stand(p, payload);
    assert(p[0].len() == 4);
    assert(wire::offset(p, 1) == 4);
    assert(p[1].len() == 4);
    assert(wire::offset(p, 2) == 8);
    wire::read32(b, 0, h.spi);
    wire::read32(b, 4, h.sequence);
    assert(esp::fields(b, ctx) =~= h.told(ctx));
}

/// Two such headers are of one conversation exactly if they have the same
/// qualifier.
pub proof fn esp_tells_conversations(h: EspHeader, g: EspHeader, ctx: Context)
    requires
        ctx.depth is Keys,
    ensures
        wire::is_keyed_by(Esp.spec_identity(), (KeyField { a: "spi", b: None })),
        wire::one_conversation(Esp.spec_identity()->0, h.told(ctx), g.told(ctx)) <==> h.spi == g.spi,
{
    let kf = KeyField { a: "spi", b: None };
    let identity = Esp.spec_identity()->0;
    assert(identity.key =~= seq![kf]);
    wire::qualifiers_tell_conversations(identity, kf, h.told(ctx), g.told(ctx));
}

} // verus!

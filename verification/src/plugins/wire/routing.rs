//! BGP messages.
use vstd::prelude::*;

use crate::bytes::ParseError;
use crate::layer::{Context, Hint, LayerPlugin, Parsed};
use crate::plugins::bgp::{self, Bgp};
use crate::plugins::wire;
use crate::value::{Fields, ValueView};

verus! {

/// The parts of a BGP OPEN message.
pub ghost struct BgpOpen {
    pub marker: Seq<u8>,
    pub my_as: u16,
    pub hold_time: u16,
    pub identifier: Seq<u8>,
    pub parameters: Seq<u8>,
}

impl BgpOpen {
    /// Whether every part has room where it stands.
    pub open spec fn fits(self) -> bool {
        &&& self.marker.len() == 16
        &&& self.identifier.len() == 4
        &&& self.parameters.len() < 256
    }

    pub open spec fn parts(self) -> Seq<Seq<u8>> {
        seq![
            self.marker,
            wire::w16((29 + self.parameters.len()) as u16),
            seq![1],
            seq![4],
            wire::w16(self.my_as),
            wire::w16(self.hold_time),
            self.identifier,
            seq![self.parameters.len() as u8],
            self.parameters,
        ]
    }

    /// The message as it is on the wire (RFC 4271, 4.2).
    pub open spec fn written(self) -> Seq<u8> {
        wire::laid_out(self.parts())
    }

    /// What is to be read of it.
    pub open spec fn told(self, ctx: Context) -> Fields {
        let keys = map![
            "app"@ => ValueView::Str("bgp"@),
        ];
        let structure = map![
            "msg_type"@ => ValueView::U64(1),
            "length"@ => ValueView::U64((29 + self.parameters.len()) as u64),
        ];
        let others = map![
            "my_as"@ => ValueView::U64(self.my_as as u64),
            "hold_time"@ => ValueView::U64(self.hold_time as u64),
            "bgp_identifier"@ => ValueView::Bytes(self.identifier),
        ];
        wire::shown(ctx, keys, structure, others)
    }
}

/// An OPEN message is read as it was written.
pub proof fn bgp_open_reads_what_was_written(h: BgpOpen, payload: Seq<u8>, ctx: Context)
    requires
        h.fits(),
    ensures
        Bgp.spec_parse(h.written() + payload, ctx) == Ok::<Parsed, ParseError>(
            Parsed { header_len: 29 + h.parameters.len() as int, fields: h.told(ctx), hint: Hint::Terminal },
        ),
{
    let p = h.parts();
    let b = h.written() + payload;
    wire::parts_stand(p, payload);
    assert(p[0].len() == 16);
    assert(wire::offset(p, 1) == 16);
    assert(p[1].len() == 2);
    assert(wire::offset(p, 2) == 18);
    assert(p[2].len() == 1);
    assert(wire::offset(p, 3) == 19);
    assert(p[3].len() == 1);
    assert(wire::offset(p, 4) == 20);
    assert(p[4].len() == 2);
    assert(wire::offset(p, 5) == 22);
    assert(p[5].len() == 2);
    assert(wire::offset(p, 6) == 24);
    assert(p[6].len() == 4);
    assert(wire::offset(p, 7) == 28);
    assert(p[7].len() == 1);
    assert(wire::offset(p, 8) == 29);
    assert(p[8] == h.parameters);
    assert(wire::offset(p, 9) == 29 + h.parameters.len());
    assert(wire::stands(b, 0, p[0]));
    wire::read16(b, 16, (29 + h.parameters.len()) as u16);
    wire::read_byte(b, 18, 1);
    wire::read_byte(b, 19, 4);
    wire::read16(b, 20, h.my_as);
    wire::read16(b, 22, h.hold_time);
    assert(wire::stands(b, 24, p[6]));
    wire::read_byte(b, 28, h.parameters.len() as u8);
    assert(wire::stands(b, 29, p[8]));
    let body = b.subrange(19, 29 + h.parameters.len() as int);
    assert(body.subrange(5, 9) =~= h.identifier);
    assert(body[0] == b[19] && body[9] == b[28]);
    assert(body[1] == b[20] && body[2] == b[21] && body[3] == b[22] && body[4] == b[23]);
    assert(bgp::open_error(body) is None);
    assert(bgp::fields(b, body, ctx)->Ok_0 =~= h.told(ctx));
}

/// The parts of a BGP message that is neither OPEN nor UPDATE.
pub ghost struct BgpOther {
    pub marker: Seq<u8>,
    pub kind: u8,
    pub body: Seq<u8>,
}

impl BgpOther {
    /// Whether every part has room where it stands.
    pub open spec fn fits(self) -> bool {
        &&& self.marker.len() == 16
        &&& self.kind != 1 && self.kind != 2
        &&& self.body.len() <= 4077
    }

    pub open spec fn parts(self) -> Seq<Seq<u8>> {
        seq![
            self.marker,
            wire::w16((19 + self.body.len()) as u16),
            seq![self.kind],
            self.body,
        ]
    }

    /// The message as it is on the wire (RFC 4271, 4.1).
    pub open spec fn written(self) -> Seq<u8> {
        wire::laid_out(self.parts())
    }

    /// What is to be read of it.
    pub open spec fn told(self, ctx: Context) -> Fields {
        let keys = map![
            "app"@ => ValueView::Str("bgp"@),
        ];
        let structure = map![
            "msg_type"@ => ValueView::U64(self.kind as u64),
            "length"@ => ValueView::U64((19 + self.body.len()) as u64),
        ];
        let others = Map::<Seq<char>, ValueView>::empty();
        wire::shown(ctx, keys, structure, others)
    }
}

/// Such a message is read as it was written.
pub proof fn bgp_other_reads_what_was_written(h: BgpOther, payload: Seq<u8>, ctx: Context)
    requires
        h.fits(),
    ensures
        Bgp.spec_parse(h.written() + payload, ctx) == Ok::<Parsed, ParseError>(
            Parsed { header_len: 19 + h.body.len() as int, fields: h.told(ctx), hint: Hint::Terminal },
        ),
{
    let p = h.parts();
    let b = h.written() + payload;
    wire::parts_stand(p, payload);
    assert(p[0].len() == 16);
    assert(wire::offset(p, 1) == 16);
    assert(p[1].len() == 2);
    assert(wire::offset(p, 2) == 18);
    assert(p[2].len() == 1);
    assert(wire::offset(p, 3) == 19);
    assert(p[3] == h.body);
    assert(wire::offset(p, 4) == 19 + h.body.len());
    assert(wire::stands(b, 0, p[0]));
    wire::read16(b, 16, (19 + h.body.len()) as u16);
    wire::read_byte(b, 18, h.kind);
    assert(wire::stands(b, 19, p[3]));
    assert(bgp::common_fields(b, ctx) =~= h.told(ctx));
}

/// Whether these are prefixes: each its length in bits, then its significant bytes.
pub open spec fn are_prefixes(list: Seq<Seq<u8>>) -> bool {
    forall|i: int|
        0 <= i < list.len() ==> (#[trigger] list[i]).len() > 0 && list[i][0] <= 32 && list[i].len()
            == 1 + (list[i][0] + 7) / 8
}

/// The values of some prefixes.
pub open spec fn as_values(list: Seq<Seq<u8>>) -> Seq<ValueView> {
    Seq::new(list.len(), |i: int| ValueView::Bytes(list[i]))
}

/// Byte strings one after the other, the first one first.
pub open spec fn joined(list: Seq<Seq<u8>>) -> Seq<u8>
    decreases list.len(),
{
    if list.len() == 0 {
        Seq::empty()
    } else {
        list[0] + joined(list.drop_first())
    }
}

proof fn lemma_prefixes(list: Seq<Seq<u8>>, head: Seq<u8>, found: Seq<ValueView>)
    requires
        are_prefixes(list),
    ensures
        bgp::prefixes(head + joined(list), head.len() as int, found) == Ok::<
            Seq<ValueView>,
            ParseError,
        >(found + as_values(list)),
    decreases list.len(),
{
    let b = head + joined(list);
    let p = head.len() as int;
    if list.len() == 0 {
        assert(b =~= head);
        assert(found + as_values(list) =~= found);
    } else {
        let one = list[0];
        let more = list.drop_first();
        assert(list[0].len() > 0 && list[0][0] <= 32);
        assert(head + one + joined(more) =~= b);
        assert(b[p] == one[0]);
        assert(b.subrange(p, p + one.len()) =~= one);
        assert forall|i: int| 0 <= i < more.len() implies (#[trigger] more[i]).len() > 0
            && more[i][0] <= 32 && more[i].len() == 1 + (more[i][0] + 7) / 8 by {
            assert(more[i] == list[i + 1]);
        }
        let next = found.push(ValueView::Bytes(one));
        lemma_prefixes(more, head + one, next);
        assert(next + as_values(more) =~= found + as_values(list)) by {
            assert forall|i: int| 0 <= i < more.len() implies as_values(more)[i] == as_values(
                list,
            )[i + 1] by {
                assert(more[i] == list[i + 1]);
            }
        }
    }
}

/// Prefixes are read one by one, as they were written.
pub proof fn bgp_prefixes_are_read(list: Seq<Seq<u8>>)
    requires
        are_prefixes(list),
    ensures
        bgp::prefixes(joined(list), 0, Seq::empty()) == Ok::<Seq<ValueView>, ParseError>(
            as_values(list),
        ),
{
    let none = Seq::<u8>::empty();
    assert(none + joined(list) =~= joined(list));
    lemma_prefixes(list, none, Seq::empty());
    assert(Seq::<ValueView>::empty() + as_values(list) =~= as_values(list));
}

/// A path attribute. The fourth-highest flag says that its length takes two bytes.
pub ghost struct Attribute {
    pub flags: u8,
    pub kind: u8,
    pub value: Seq<u8>,
}

impl Attribute {
    pub open spec fn is_long(self) -> bool {
        self.flags / 16 % 2 == 1
    }

    pub open spec fn fits(self) -> bool {
        self.value.len() < if self.is_long() {
            0x1_0000int
        } else {
            0x100
        }
    }

    pub open spec fn written(self) -> Seq<u8> {
        let n = self.value.len();
        seq![self.flags, self.kind] + (if self.is_long() {
            wire::w16(n as u16)
        } else {
            seq![n as u8]
        }) + self.value
    }
}

/// Attributes one after the other.
pub open spec fn attributed(list: Seq<Attribute>) -> Seq<u8>
    decreases list.len(),
{
    if list.len() == 0 {
        Seq::empty()
    } else {
        list[0].written() + attributed(list.drop_first())
    }
}

/// The value of the first NEXT_HOP attribute.
pub open spec fn classic_hop(list: Seq<Attribute>) -> Option<Seq<u8>>
    decreases list.len(),
{
    if list.len() == 0 {
        None
    } else if list[0].kind == 3 {
        Some(list[0].value)
    } else {
        classic_hop(list.drop_first())
    }
}

/// The next hop of the first MP_REACH_NLRI attribute that has one: behind family and
/// subfamily, as long as the byte ahead of it says.
pub open spec fn multiprotocol_hop(list: Seq<Attribute>) -> Option<Seq<u8>>
    decreases list.len(),
{
    if list.len() == 0 {
        None
    } else if list[0].kind == 14 && list[0].value.len() >= 4 && list[0].value.len() >= 4
        + list[0].value[3] {
        Some(list[0].value.skip(4).take(list[0].value[3] as int))
    } else {
        multiprotocol_hop(list.drop_first())
    }
}

/// One attribute is read where it stands.
proof fn lemma_attribute(b: Seq<u8>, p: int, a: Attribute, h: bgp::NextHops)
    requires
        a.fits(),
        wire::stands(b, p, a.written()),
    ensures
        bgp::attributes(b, p, h) == bgp::attributes(
            b,
            p + a.written().len(),
            bgp::with_attribute(h, a.kind, a.value),
        ),
{
    let n = a.value.len() as int;
    let one = a.written();
    let s = b.subrange(p, p + one.len());
    assert(b[p] == s[0] && b[p + 1] == s[1] && b[p + 2] == s[2]);
    assert(one[0] == a.flags && one[1] == a.kind);
    wire::bits8(b[p]);
    if a.is_long() {
        assert(b.subrange(p + 2, p + 4) =~= s.subrange(2, 4));
        assert(one.subrange(2, 4) =~= wire::w16(n as u16));
        wire::read16(b, p + 2, n as u16);
        assert(b.subrange(p + 4, p + 4 + n) =~= s.subrange(4, 4 + n));
        assert(one.subrange(4, 4 + n) =~= a.value);
    } else {
        assert(one[2] == n);
        assert(b.subrange(p + 3, p + 3 + n) =~= s.subrange(3, 3 + n));
        assert(one.subrange(3, 3 + n) =~= a.value);
    }
}

proof fn lemma_attributes(list: Seq<Attribute>, h: bgp::NextHops, head: Seq<u8>)
    requires
        forall|i: int| 0 <= i < list.len() ==> (#[trigger] list[i]).fits(),
    ensures
        bgp::attributes(head + attributed(list), head.len() as int, h) == Ok::<
            bgp::NextHops,
            ParseError,
        >(
            bgp::NextHops {
                classic: if h.classic is Some {
                    h.classic
                } else {
                    classic_hop(list)
                },
                mp: if h.mp is Some {
                    h.mp
                } else {
                    multiprotocol_hop(list)
                },
            },
        ),
    decreases list.len(),
{
    let b = head + attributed(list);
    let p = head.len() as int;
    if list.len() == 0 {
        assert(b =~= head);
    } else {
        let a = list[0];
        let more = list.drop_first();
        let n = a.value.len();
        let one = a.written();
        assert(list[0].fits());
        assert(head + one + attributed(more) =~= b);
        assert forall|i: int| 0 <= i < more.len() implies (#[trigger] more[i]).fits() by {
            assert(more[i] == list[i + 1]);
        }
        assert(b.subrange(p, p + one.len()) =~= one);
        lemma_attribute(b, p, a, h);
        if n >= 4 && n >= 4 + a.value[3] {
            assert(a.value.skip(4).take(a.value[3] as int) =~= a.value.subrange(
                4,
                4 + a.value[3],
            ));
        }
        lemma_attributes(more, bgp::with_attribute(h, a.kind, a.value), head + one);
    }
}

/// The next hop of an UPDATE is that of its NEXT_HOP attribute or, if there is none, of
/// its MP_REACH_NLRI attribute, wherever among the attributes they stand.
pub proof fn bgp_next_hops_are_found(list: Seq<Attribute>)
    requires
        forall|i: int| 0 <= i < list.len() ==> (#[trigger] list[i]).fits(),
    ensures
        bgp::attributes(attributed(list), 0, bgp::no_hops()) is Ok,
        bgp::next_hop(bgp::attributes(attributed(list), 0, bgp::no_hops())->Ok_0)
            == if classic_hop(list) is Some {
            classic_hop(list)
        } else {
            multiprotocol_hop(list)
        },
{
    let none = Seq::<u8>::empty();
    assert(none + attributed(list) =~= attributed(list));
    lemma_attributes(list, bgp::no_hops(), none);
}

/// The parts of a BGP UPDATE message.
pub ghost struct BgpUpdate {
    pub marker: Seq<u8>,
    pub withdrawn: Seq<Seq<u8>>,
    pub attributes: Seq<Attribute>,
    pub announced: Seq<Seq<u8>>,
}

impl BgpUpdate {
    /// Whether every part has room where it stands.
    pub open spec fn fits(self) -> bool {
        &&& self.marker.len() == 16
        &&& are_prefixes(self.withdrawn)
        &&& are_prefixes(self.announced)
        &&& forall|i: int| 0 <= i < self.attributes.len() ==> (#[trigger] self.attributes[i]).fits()
        &&& self.len() <= 4096
    }

    pub open spec fn len(self) -> int {
        23int + self.withdrawn_part().len() + self.attributes_part().len()
            + self.announced_part().len()
    }

    pub open spec fn withdrawn_part(self) -> Seq<u8> {
        joined(self.withdrawn)
    }

    pub open spec fn attributes_part(self) -> Seq<u8> {
        attributed(self.attributes)
    }

    pub open spec fn announced_part(self) -> Seq<u8> {
        joined(self.announced)
    }

    pub open spec fn hop(self) -> Option<Seq<u8>> {
        if classic_hop(self.attributes) is Some {
            classic_hop(self.attributes)
        } else {
            multiprotocol_hop(self.attributes)
        }
    }

    pub open spec fn parts(self) -> Seq<Seq<u8>> {
        seq![
            self.marker,
            wire::w16(self.len() as u16),
            seq![2],
            wire::w16(self.withdrawn_part().len() as u16),
            self.withdrawn_part(),
            wire::w16(self.attributes_part().len() as u16),
            self.attributes_part(),
            self.announced_part(),
        ]
    }

    /// The message as it is on the wire (RFC 4271, 4.3).
    pub open spec fn written(self) -> Seq<u8> {
        wire::laid_out(self.parts())
    }

    /// What is to be read of it.
    pub open spec fn told(self, ctx: Context) -> Fields {
        let keys = map![
            "app"@ => ValueView::Str("bgp"@),
        ];
        let structure = map![
            "msg_type"@ => ValueView::U64(2),
            "length"@ => ValueView::U64(self.len() as u64),
        ];
        let others = map![
            "withdrawn_routes"@ => ValueView::List(as_values(self.withdrawn)),
            "nlri"@ => ValueView::List(as_values(self.announced)),
        ];
        let others = wire::with(others, self.hop() is Some, "next_hop"@, ValueView::Bytes(self.hop()->0));
        wire::shown(ctx, keys, structure, others)
    }
}

/// An UPDATE message is read as it was written.
pub proof fn bgp_update_reads_what_was_written(h: BgpUpdate, payload: Seq<u8>, ctx: Context)
    requires
        h.fits(),
    ensures
        Bgp.spec_parse(h.written() + payload, ctx) == Ok::<Parsed, ParseError>(
            Parsed { header_len: h.len(), fields: h.told(ctx), hint: Hint::Terminal },
        ),
{
    let p = h.parts();
    let b = h.written() + payload;
    wire::parts_stand(p, payload);
    assert(p[0].len() == 16);
    assert(wire::offset(p, 1) == 16);
    assert(p[1].len() == 2);
    assert(wire::offset(p, 2) == 18);
    assert(p[2].len() == 1);
    assert(wire::offset(p, 3) == 19);
    assert(p[3].len() == 2);
    assert(wire::offset(p, 4) == 21);
    assert(p[4] == h.withdrawn_part());
    assert(wire::offset(p, 5) == 21 + h.withdrawn_part().len());
    assert(p[5].len() == 2);
    assert(wire::offset(p, 6) == 23 + h.withdrawn_part().len());
    assert(p[6] == h.attributes_part());
    assert(wire::offset(p, 7) == 23 + h.withdrawn_part().len() + h.attributes_part().len());
    assert(p[7] == h.announced_part());
    assert(wire::offset(p, 8) == 23 + h.withdrawn_part().len() + h.attributes_part().len() + h.announced_part().len());
    assert(wire::stands(b, 0, p[0]));
    wire::read16(b, 16, h.len() as u16);
    wire::read_byte(b, 18, 2);
    wire::read16(b, 19, h.withdrawn_part().len() as u16);
    assert(wire::stands(b, 21, p[4]));
    wire::read16(b, (21 + h.withdrawn_part().len()) as int, h.attributes_part().len() as u16);
    assert(wire::stands(b, (23 + h.withdrawn_part().len()) as int, p[6]));
    assert(wire::stands(b, (23 + h.withdrawn_part().len() + h.attributes_part().len()) as int, p[7]));
    let w = h.withdrawn_part().len() as int;
    let a = h.attributes_part().len() as int;
    let body = b.subrange(19, h.len());
    assert(body[0] == b[19] && body[1] == b[20]);
    assert(body[2 + w] == b[21 + w] && body[3 + w] == b[22 + w]);
    assert(body.subrange(2, 2 + w) =~= h.withdrawn_part());
    assert(body.subrange(4 + w, 4 + w + a) =~= h.attributes_part());
    assert(body.subrange(4 + w + a, body.len() as int) =~= h.announced_part());
    bgp_prefixes_are_read(h.withdrawn);
    bgp_prefixes_are_read(h.announced);
    bgp_next_hops_are_found(h.attributes);
    assert(bgp::update(body) is Ok);
    assert(bgp::fields(b, body, ctx)->Ok_0 =~= h.told(ctx));
}

} // verus!

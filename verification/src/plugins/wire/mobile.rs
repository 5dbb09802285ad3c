//! The control plane of mobile networks: GTP-C.
use vstd::prelude::*;

use crate::bytes::ParseError;
use crate::identity::KeyField;
use crate::layer::{Context, Hint, LayerPlugin, Parsed};
use crate::plugins::gtp_c::{self, GtpC};
use crate::plugins::wire::{self, Item};
use crate::text;
use crate::value::{Fields, ValueView};

verus! {

/// Digits packed two to an octet, the first in the low half; a half that is left over
/// holds the filler.
pub open spec fn packed(digits: Seq<u8>) -> Seq<u8> {
    Seq::new(
        ((digits.len() + 1) / 2) as nat,
        |i: int|
            (digits[2 * i] + 16 * (if 2 * i + 1 < digits.len() {
                digits[2 * i + 1] as int
            } else {
                15
            })) as u8,
    )
}

/// The text of some digits.
pub open spec fn digit_text(digits: Seq<u8>) -> Seq<char> {
    Seq::new(digits.len(), |i: int| (48 + digits[i]) as char)
}

proof fn lemma_digits(digits: Seq<u8>, i: int)
    requires
        digits.len() > 0,
        0 <= i <= digits.len(),
        forall|k: int| 0 <= k < digits.len() ==> (#[trigger] digits[k]) < 10,
    ensures
        gtp_c::bcd_digits(packed(digits), i, digit_text(digits).take(i)) == Some(
            digit_text(digits),
        ),
    decreases digits.len() - i,
{
    let d = packed(digits);
    let n = digits.len() as int;
    let t = digit_text(digits);
    if i < n {
        assert(digits[i] < 10);
        let o = d[i / 2];
        wire::bits8(o);
        wire::bits8(o >> 4);
        if i % 2 == 0 {
            assert(digits[2 * (i / 2)] == digits[i]);
            assert(o % 16 == digits[i]);
        } else {
            assert(2 * (i / 2) + 1 == i);
            assert(digits[2 * (i / 2)] < 10);
            assert(o / 16 == digits[i]);
        }
        assert(gtp_c::nibble(d, i) == digits[i]);
        assert(text::digit(digits[i] as int) == t[i]);
        assert(t.take(i).push(t[i]) =~= t.take(i + 1));
        lemma_digits(digits, i + 1);
    } else {
        assert(t.take(n) =~= t);
        if n % 2 == 1 {
            let o = d[i / 2];
            wire::bits8(o);
            wire::bits8(o >> 4);
            assert(2 * (i / 2) + 1 == i);
            assert(digits[2 * (i / 2)] < 10);
            assert(o / 16 == 15);
            assert(gtp_c::nibble(d, i) == 0xF);
        }
    }
}

/// A subscriber's number is read digit by digit, as it was packed.
pub proof fn imsis_are_read(digits: Seq<u8>)
    requires
        digits.len() > 0,
        forall|k: int| 0 <= k < digits.len() ==> (#[trigger] digits[k]) < 10,
    ensures
        gtp_c::bcd_digits(packed(digits), 0, Seq::empty()) == Some(digit_text(digits)),
{
    assert(digit_text(digits).take(0) =~= Seq::empty());
    lemma_digits(digits, 0);
}

/// Labels, each behind its length.
pub open spec fn labelled(labels: Seq<Seq<char>>) -> Seq<u8>
    decreases labels.len(),
{
    if labels.len() == 0 {
        Seq::empty()
    } else {
        let e = vstd::utf8::encode_utf8(labels[0]);
        seq![e.len() as u8] + e + labelled(labels.drop_first())
    }
}

/// Labels after `name`, with dots between them.
pub open spec fn with_dots(name: Option<Seq<char>>, labels: Seq<Seq<char>>) -> Option<Seq<char>>
    decreases labels.len(),
{
    if labels.len() == 0 {
        name
    } else {
        with_dots(
            Some(
                match name {
                    None => labels[0],
                    Some(n) => n + seq!['.'] + labels[0],
                },
            ),
            labels.drop_first(),
        )
    }
}

proof fn lemma_apn(labels: Seq<Seq<char>>, name: Option<Seq<char>>, head: Seq<u8>)
    requires
        forall|i: int|
            0 <= i < labels.len() ==> vstd::utf8::encode_utf8(#[trigger] labels[i]).len() < 256,
    ensures
        gtp_c::apn_labels(head + labelled(labels), head.len() as int, name) == with_dots(
            name,
            labels,
        ),
    decreases labels.len(),
{
    let d = head + labelled(labels);
    let p = head.len() as int;
    if labels.len() == 0 {
        assert(d =~= head);
    } else {
        let e = vstd::utf8::encode_utf8(labels[0]);
        let more = labels.drop_first();
        let one = seq![e.len() as u8] + e;
        assert(vstd::utf8::encode_utf8(labels[0]).len() < 256);
        assert(labelled(labels) == one + labelled(more));
        assert(head + one + labelled(more) =~= d);
        assert(d[p] == one[0]);
        assert(d.subrange(p + 1, p + 1 + d[p]) =~= e);
        vstd::utf8::encode_utf8_decode_utf8(labels[0]);
        vstd::utf8::encode_utf8_valid_utf8(labels[0]);
        assert forall|i: int| 0 <= i < more.len() implies vstd::utf8::encode_utf8(
            #[trigger] more[i],
        ).len() < 256 by {
            assert(more[i] == labels[i + 1]);
        }
        let next = match name {
            None => labels[0],
            Some(n) => n + seq!['.'] + labels[0],
        };
        assert(gtp_c::joined(name, labels[0])->0 =~= next);
        lemma_apn(more, Some(next), head + one);
    }
}

/// An access point's name is read label by label.
pub proof fn apns_are_read(labels: Seq<Seq<char>>)
    requires
        forall|i: int|
            0 <= i < labels.len() ==> vstd::utf8::encode_utf8(#[trigger] labels[i]).len() < 256,
    ensures
        gtp_c::apn_labels(labelled(labels), 0, None) == with_dots(None, labels),
{
    let none = Seq::<u8>::empty();
    assert(none + labelled(labels) =~= labelled(labels));
    lemma_apn(labels, None, none);
}

/// The subscriber's number in some elements, of which the last of a kind counts.
pub open spec fn imsi_in(v: Option<Seq<u8>>, before: Option<Seq<char>>) -> Option<Seq<char>> {
    match v {
        Some(v) => gtp_c::bcd_digits(v, 0, Seq::empty()),
        None => before,
    }
}

/// The access point's name in some elements.
pub open spec fn apn_in(v: Option<Seq<u8>>, before: Option<Seq<char>>) -> Option<Seq<char>> {
    match v {
        Some(v) => gtp_c::apn_labels(v, 0, None),
        None => before,
    }
}

/// GTPv2-C elements: type, length, instance, value.
pub open spec fn second_elements(list: Seq<Item>, instances: Seq<u8>) -> Seq<u8>
    decreases list.len(),
{
    if list.len() == 0 {
        Seq::empty()
    } else {
        seq![list[0].kind as u8] + wire::w16(list[0].value.len() as u16) + seq![instances[0]]
            + list[0].value + second_elements(list.drop_first(), instances.drop_first())
    }
}

/// Whether elements can stand in a message.
pub open spec fn are_elements(list: Seq<Item>) -> bool {
    forall|i: int|
        0 <= i < list.len() ==> 0 <= (#[trigger] list[i]).kind < 256 && list[i].value.len()
            < 0x1_0000
}

/// Elements of the second version are found wherever they stand.
pub proof fn second_elements_are_read(
    list: Seq<Item>,
    instances: Seq<u8>,
    n: gtp_c::Names,
    head: Seq<u8>,
)
    requires
        are_elements(list),
    ensures
        gtp_c::v2_elements(head + second_elements(list, instances), head.len() as int, n) == (
        gtp_c::Names {
            imsi: imsi_in(wire::latest(list, 1, None), n.imsi),
            apn: apn_in(wire::latest(list, 71, None), n.apn),
        }),
    decreases list.len(),
{
    let d = head + second_elements(list, instances);
    let p = head.len() as int;
    if list.len() == 0 {
        assert(d =~= head);
    } else {
        let it = list[0];
        let len = it.value.len() as u16;
        let more = list.drop_first();
        let rest = instances.drop_first();
        assert(0 <= list[0].kind < 256);
        let one = seq![it.kind as u8] + wire::w16(len) + seq![instances[0]] + it.value;
        assert(second_elements(list, instances) == one + second_elements(more, rest));
        assert(head + one + second_elements(more, rest) =~= d);
        assert(d[p] == one[0]);
        assert(d.subrange(p + 1, p + 3) =~= wire::w16(len));
        wire::read16(d, p + 1, len);
        assert(d.subrange(p + 4, p + 4 + len) =~= it.value);
        assert forall|i: int| 0 <= i < more.len() implies 0 <= (#[trigger] more[i]).kind < 256
            && more[i].value.len() < 0x1_0000 by {
            assert(more[i] == list[i + 1]);
        }
        let next = if it.kind == 1 {
            gtp_c::with_imsi(n, it.value)
        } else if it.kind == 71 {
            gtp_c::with_apn(n, it.value)
        } else {
            n
        };
        second_elements_are_read(more, rest, next, head + one);
    }
}

/// The length of the values of the element types below 128 (3GPP TS 29.060, 7.7) that
/// are known.
pub open spec fn known_len(kind: int) -> int {
    if kind == 1 || kind == 14 || kind == 15 || kind == 20 {
        1
    } else if kind == 2 {
        8
    } else if kind == 3 {
        6
    } else if kind == 16 || kind == 17 {
        4
    } else if kind == 18 {
        5
    } else {
        2
    }
}

/// Whether elements of the first version can be walked: of types below 128 only known
/// ones, of their length.
pub open spec fn are_known(list: Seq<Item>) -> bool {
    forall|i: int|
        0 <= i < list.len() ==> {
            let it = #[trigger] list[i];
            &&& 0 < it.kind < 256
            &&& it.kind >= 128 ==> it.value.len() < 0x1_0000
            &&& it.kind < 128 ==> it.value.len() == known_len(it.kind) && (it.kind <= 3
                || 14 <= it.kind <= 18 || it.kind == 20 || it.kind == 26)
        }
}

/// GTPv1-C elements: type and value, or from type 128 on type, length and value.
pub open spec fn first_elements(list: Seq<Item>) -> Seq<u8>
    decreases list.len(),
{
    if list.len() == 0 {
        Seq::empty()
    } else if list[0].kind < 128 {
        seq![list[0].kind as u8] + list[0].value + first_elements(list.drop_first())
    } else {
        seq![list[0].kind as u8] + wire::w16(list[0].value.len() as u16) + list[0].value
            + first_elements(list.drop_first())
    }
}

/// Known elements of the first version are found wherever they stand.
pub proof fn first_elements_are_read(list: Seq<Item>, n: gtp_c::Names, head: Seq<u8>)
    requires
        are_known(list),
    ensures
        gtp_c::v1_elements(head + first_elements(list), head.len() as int, n) == (gtp_c::Names {
            imsi: imsi_in(wire::latest(list, 2, None), n.imsi),
            apn: apn_in(wire::latest(list, 0x83, None), n.apn),
        }),
    decreases list.len(),
{
    let d = head + first_elements(list);
    let p = head.len() as int;
    if list.len() == 0 {
        assert(d =~= head);
    } else {
        let it = list[0];
        let len = it.value.len() as u16;
        let more = list.drop_first();
        assert(0 < list[0].kind < 256);
        let one = if it.kind < 128 {
            seq![it.kind as u8] + it.value
        } else {
            seq![it.kind as u8] + wire::w16(len) + it.value
        };
        assert(first_elements(list) == one + first_elements(more));
        assert(head + one + first_elements(more) =~= d);
        assert(d[p] == one[0]);
        assert(are_known(more)) by {
            assert forall|i: int| 0 <= i < more.len() implies {
                let it = #[trigger] more[i];
                &&& 0 < it.kind < 256
                &&& it.kind >= 128 ==> it.value.len() < 0x1_0000
                &&& it.kind < 128 ==> it.value.len() == known_len(it.kind) && (it.kind <= 3
                    || 14 <= it.kind <= 18 || it.kind == 20 || it.kind == 26)
            } by {
                assert(more[i] == list[i + 1]);
            }
        }
        if it.kind < 128 {
            assert(d.subrange(p + 1, p + 1 + it.value.len()) =~= it.value);
            assert(gtp_c::tv_length(it.kind as u8) == Some(it.value.len() as int));
            let next = if it.kind == 2 {
                gtp_c::with_imsi(n, it.value)
            } else {
                n
            };
            first_elements_are_read(more, next, head + one);
        } else {
            assert(d.subrange(p + 1, p + 3) =~= wire::w16(len));
            wire::read16(d, p + 1, len);
            assert(d.subrange(p + 3, p + 3 + len) =~= it.value);
            let next = if it.kind == 0x83 {
                gtp_c::with_apn(n, it.value)
            } else {
                n
            };
            first_elements_are_read(more, next, head + one);
        }
    }
}

/// The parts of a GTPv2-C message; one without a tunnel has tunnel zero.
pub ghost struct GtpCSecond {
    pub piggyback: bool,
    pub tunnel: Option<u32>,
    pub spare: u8,
    pub kind: u8,
    pub sequence: u32,
    pub elements: Seq<Item>,
    pub instances: Seq<u8>,
}

impl GtpCSecond {
    /// Whether every part has room where it stands.
    pub open spec fn fits(self) -> bool {
        &&& self.spare < 8
        &&& are_elements(self.elements)
        &&& self.len() < 0x1_0000
    }

    pub open spec fn flags(self) -> u8 {
        (64 + wire::bit(self.piggyback) * 16 + wire::bit(self.tunnel is Some) * 8
            + self.spare) as u8
    }

    pub open spec fn tunnel_part(self) -> Seq<u8> {
        match self.tunnel {
            Some(t) => wire::w32(t),
            None => Seq::empty(),
        }
    }

    pub open spec fn elements_part(self) -> Seq<u8> {
        second_elements(self.elements, self.instances)
    }

    /// What the length field says: all but the first four bytes.
    pub open spec fn len(self) -> int {
        (self.tunnel_part().len() + 4 + self.elements_part().len()) as int
    }

    pub open spec fn teid(self) -> u32 {
        match self.tunnel {
            Some(t) => t,
            None => 0,
        }
    }

    pub open spec fn imsi(self) -> Option<Seq<char>> {
        imsi_in(wire::latest(self.elements, 1, None), None)
    }

    pub open spec fn apn(self) -> Option<Seq<char>> {
        apn_in(wire::latest(self.elements, 71, None), None)
    }

    pub open spec fn parts(self) -> Seq<Seq<u8>> {
        seq![
            seq![self.flags()],
            seq![self.kind],
            wire::w16(self.len() as u16),
            self.tunnel_part(),
            wire::w32(self.sequence),
            self.elements_part(),
        ]
    }

    /// The message as it is on the wire (3GPP TS 29.274, 5.1).
    pub open spec fn written(self) -> Seq<u8> {
        wire::laid_out(self.parts())
    }

    /// What is to be read of it.
    pub open spec fn told(self, ctx: Context) -> Fields {
        let keys = map![
            "teid"@ => ValueView::U64(self.teid() as u64),
        ];
        let structure = map![
            "version"@ => ValueView::U64(2),
            "message_type"@ => ValueView::U64(self.kind as u64),
            "length"@ => ValueView::U64(self.len() as u64),
        ];
        let others = Map::<Seq<char>, ValueView>::empty();
        let others = wire::with(others, self.imsi() is Some, "imsi"@, ValueView::Str(self.imsi()->0));
        let others = wire::with(others, self.apn() is Some, "apn"@, ValueView::Str(self.apn()->0));
        wire::shown(ctx, keys, structure, others)
    }
}

/// A GTPv2-C message is read as it was written.
pub proof fn gtp_c_second_reads_what_was_written(h: GtpCSecond, payload: Seq<u8>, ctx: Context)
    requires
        h.fits(),
    ensures
        GtpC.spec_parse(h.written() + payload, ctx) == Ok::<Parsed, ParseError>(
            Parsed { header_len: 4 + h.len(), fields: h.told(ctx), hint: Hint::Terminal },
        ),
{
    let p = h.parts();
    let b = h.written() + payload;
    wire::parts_stand(p, payload);
    assert(p[0].len() == 1);
    assert(wire::offset(p, 1) == 1);
    assert(p[1].len() == 1);
    assert(wire::offset(p, 2) == 2);
    assert(p[2].len() == 2);
    assert(wire::offset(p, 3) == 4);
    assert(p[3] == h.tunnel_part());
    assert(wire::offset(p, 4) == 4 + h.tunnel_part().len());
    assert(p[4].len() == 4);
    assert(wire::offset(p, 5) == 8 + h.tunnel_part().len());
    assert(p[5] == h.elements_part());
    assert(wire::offset(p, 6) == 8 + h.tunnel_part().len() + h.elements_part().len());
    wire::read_byte(b, 0, h.flags());
    wire::read_byte(b, 1, h.kind);
    wire::read16(b, 2, h.len() as u16);
    assert(wire::stands(b, 4, p[3]));
    wire::read32(b, (4 + h.tunnel_part().len()) as int, h.sequence);
    assert(wire::stands(b, (8 + h.tunnel_part().len()) as int, p[5]));
    wire::bits8(b[0]);
    let f = h.flags();
    assert(f / 32 == 2 && f / 8 % 2 == wire::bit(h.tunnel is Some));
    if h.tunnel is Some {
        wire::read32(b, 4, h.tunnel->0);
    }
    let d = b.subrange(gtp_c::elements_at(b), gtp_c::header_end(b));
    assert(d =~= h.elements_part());
    let none = Seq::<u8>::empty();
    assert(none + h.elements_part() =~= h.elements_part());
    second_elements_are_read(h.elements, h.instances, gtp_c::no_names(), none);
    assert(gtp_c::fields(b, ctx) =~= h.told(ctx));
}

/// Two such headers are of one conversation exactly if they have the same
/// qualifier.
pub proof fn gtp_c_second_tells_conversations(h: GtpCSecond, g: GtpCSecond, ctx: Context)
    requires
        ctx.depth is Keys,
        h.fits(),
        g.fits(),
    ensures
        wire::is_keyed_by(GtpC.spec_identity(), (KeyField { a: "teid", b: None })),
        wire::one_conversation(GtpC.spec_identity()->0, h.told(ctx), g.told(ctx)) <==> h.teid() == g.teid(),
{
    let kf = KeyField { a: "teid", b: None };
    let identity = GtpC.spec_identity()->0;
    assert(identity.key =~= seq![kf]);
    wire::qualifiers_tell_conversations(identity, kf, h.told(ctx), g.told(ctx));
}

/// The parts of a GTPv1-C message.
pub ghost struct GtpCFirst {
    pub spare: bool,
    pub e: bool,
    pub s: bool,
    pub pn: bool,
    pub kind: u8,
    pub teid: u32,
    pub block: u32,
    pub elements: Seq<Item>,
}

impl GtpCFirst {
    /// Whether every part has room where it stands.
    pub open spec fn fits(self) -> bool {
        &&& are_known(self.elements)
        &&& self.len() < 0x1_0000
    }

    pub open spec fn flags(self) -> u8 {
        (32 + 16 + wire::bit(self.spare) * 8 + wire::bit(self.e) * 4 + wire::bit(self.s) * 2
            + wire::bit(self.pn)) as u8
    }

    /// Sequence number, N-PDU number and the type of the next extension header.
    pub open spec fn block_part(self) -> Seq<u8> {
        if self.e || self.s || self.pn {
            wire::w32(self.block)
        } else {
            Seq::empty()
        }
    }

    pub open spec fn elements_part(self) -> Seq<u8> {
        first_elements(self.elements)
    }

    /// What the length field says: all but the first eight bytes.
    pub open spec fn len(self) -> int {
        (self.block_part().len() + self.elements_part().len()) as int
    }

    pub open spec fn imsi(self) -> Option<Seq<char>> {
        imsi_in(wire::latest(self.elements, 2, None), None)
    }

    pub open spec fn apn(self) -> Option<Seq<char>> {
        apn_in(wire::latest(self.elements, 0x83, None), None)
    }

    pub open spec fn parts(self) -> Seq<Seq<u8>> {
        seq![
            seq![self.flags()],
            seq![self.kind],
            wire::w16(self.len() as u16),
            wire::w32(self.teid),
            self.block_part(),
            self.elements_part(),
        ]
    }

    /// The message as it is on the wire (3GPP TS 29.060, 6).
    pub open spec fn written(self) -> Seq<u8> {
        wire::laid_out(self.parts())
    }

    /// What is to be read of it.
    pub open spec fn told(self, ctx: Context) -> Fields {
        let keys = map![
            "teid"@ => ValueView::U64(self.teid as u64),
        ];
        let structure = map![
            "version"@ => ValueView::U64(1),
            "message_type"@ => ValueView::U64(self.kind as u64),
            "length"@ => ValueView::U64(self.len() as u64),
        ];
        let others = Map::<Seq<char>, ValueView>::empty();
        let others = wire::with(others, self.imsi() is Some, "imsi"@, ValueView::Str(self.imsi()->0));
        let others = wire::with(others, self.apn() is Some, "apn"@, ValueView::Str(self.apn()->0));
        wire::shown(ctx, keys, structure, others)
    }
}

/// A GTPv1-C message is read as it was written.
pub proof fn gtp_c_first_reads_what_was_written(h: GtpCFirst, payload: Seq<u8>, ctx: Context)
    requires
        h.fits(),
    ensures
        GtpC.spec_parse(h.written() + payload, ctx) == Ok::<Parsed, ParseError>(
            Parsed { header_len: 8 + h.len(), fields: h.told(ctx), hint: Hint::Terminal },
        ),
{
    let p = h.parts();
    let b = h.written() + payload;
    wire::parts_stand(p, payload);
    assert(p[0].len() == 1);
    assert(wire::offset(p, 1) == 1);
    assert(p[1].len() == 1);
    assert(wire::offset(p, 2) == 2);
    assert(p[2].len() == 2);
    assert(wire::offset(p, 3) == 4);
    assert(p[3].len() == 4);
    assert(wire::offset(p, 4) == 8);
    assert(p[4] == h.block_part());
    assert(wire::offset(p, 5) == 8 + h.block_part().len());
    assert(p[5] == h.elements_part());
    assert(wire::offset(p, 6) == 8 + h.block_part().len() + h.elements_part().len());
    wire::read_byte(b, 0, h.flags());
    wire::read_byte(b, 1, h.kind);
    wire::read16(b, 2, h.len() as u16);
    wire::read32(b, 4, h.teid);
    assert(wire::stands(b, 8, p[4]));
    assert(wire::stands(b, (8 + h.block_part().len()) as int, p[5]));
    wire::bits8(b[0]);
    let f = h.flags();
    assert(f / 32 == 1 && f / 16 % 2 == 1);
    assert(f % 8 == wire::bit(h.e) * 4 + wire::bit(h.s) * 2 + wire::bit(h.pn));
    let d = b.subrange(gtp_c::elements_at(b), gtp_c::header_end(b));
    assert(d =~= h.elements_part());
    let none = Seq::<u8>::empty();
    assert(none + h.elements_part() =~= h.elements_part());
    first_elements_are_read(h.elements, gtp_c::no_names(), none);
    assert(gtp_c::fields(b, ctx) =~= h.told(ctx));
}

} // verus!

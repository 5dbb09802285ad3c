//! Wireless networks: 802.11 frames.
use vstd::prelude::*;

use crate::bytes::ParseError;
use crate::flows::key;
use crate::identity::KeyField;
use crate::layer::{Context, Hint, LayerPlugin, Parsed};
use crate::plugins::dot11::{self, Dot11};
use crate::plugins::wire::{self, Item};
use crate::text;
use crate::value::{Fields, ValueView};

verus! {

/// The elements of a management frame: number, length, content.
pub open spec fn elements(list: Seq<Item>) -> Seq<u8>
    decreases list.len(),
{
    if list.len() == 0 {
        Seq::empty()
    } else {
        seq![list[0].kind as u8, list[0].value.len() as u8] + list[0].value + elements(
            list.drop_first(),
        )
    }
}

/// The network's name is that of the first element number zero, wherever it stands.
pub proof fn ssids_are_found(list: Seq<Item>, head: Seq<u8>)
    requires
        forall|i: int|
            0 <= i < list.len() ==> 0 <= (#[trigger] list[i]).kind < 256 && list[i].value.len()
                < 256,
    ensures
        dot11::find_ssid(head + elements(list), head.len() as int) == match wire::earliest(
            list,
            0,
            None,
        ) {
            Some(v) => Some(wire::legible(v, true)),
            None => None,
        },
    decreases list.len(),
{
    let b = head + elements(list);
    let p = head.len() as int;
    if list.len() == 0 {
        assert(b =~= head);
    } else {
        let it = list[0];
        let more = list.drop_first();
        assert(0 <= list[0].kind < 256);
        let one = seq![it.kind as u8, it.value.len() as u8] + it.value;
        assert(elements(list) == one + elements(more));
        assert(head + one + elements(more) =~= b);
        assert(b[p] == one[0] && b[p + 1] == one[1]);
        assert(b.subrange(p + 2, p + 2 + b[p + 1]) =~= it.value);
        assert(text::display_text(it.value) =~= wire::legible(it.value, true));
        assert forall|i: int| 0 <= i < more.len() implies 0 <= (#[trigger] more[i]).kind < 256
            && more[i].value.len() < 256 by {
            assert(more[i] == list[i + 1]);
        }
        ssids_are_found(more, head + one);
    }
}

/// The first byte of a frame: version, type and subtype.
proof fn lemma_control(version: int, kind: int, subtype: int)
    requires
        0 <= version < 4,
        0 <= kind < 4,
        0 <= subtype < 16,
    ensures
        ({
            let x = (subtype * 16 + kind * 4 + version) as u8;
            &&& (x >> 2) & 0b11 == kind
            &&& (x >> 4) & 0b1111 == subtype
            &&& ((x >> 4) & 0b1111) & 0b1000 != 0 <==> subtype >= 8
        }),
{
    let x = (subtype * 16 + kind * 4 + version) as u8;
    wire::bits8(x);
    let y = x >> 2;
    let z = x >> 4;
    wire::bits8(y);
    wire::bits8(z);
    assert(y == subtype * 4 + kind);
    assert(z == subtype);
}

/// The parts of an 802.11 data frame. Between two distribution systems it has a fourth
/// address; from subtype eight on it has a QoS control field.
pub ghost struct Dot11Data {
    pub version: u8,
    pub subtype: u8,
    pub flags: u8,
    pub duration: u16,
    pub addr1: Seq<u8>,
    pub addr2: Seq<u8>,
    pub addr3: Seq<u8>,
    pub fragment: u8,
    pub sequence: u16,
    pub addr4: Seq<u8>,
    pub qos: u16,
}

impl Dot11Data {
    /// Whether every part has room where it stands.
    pub open spec fn fits(self) -> bool {
        &&& self.version < 4
        &&& self.subtype < 16
        &&& self.addr1.len() == 6
        &&& self.addr2.len() == 6
        &&& self.addr3.len() == 6
        &&& self.addr4.len() == 6
        &&& self.fragment < 16
        &&& self.sequence < 0x1000
    }

    /// Both flags are set: to and from the distribution system.
    pub open spec fn is_bridged(self) -> bool {
        self.flags % 4 == 3
    }

    pub open spec fn addr4_part(self) -> Seq<u8> {
        if self.is_bridged() {
            self.addr4
        } else {
            Seq::empty()
        }
    }

    pub open spec fn qos_part(self) -> Seq<u8> {
        if self.subtype >= 8 {
            wire::l16(self.qos)
        } else {
            Seq::empty()
        }
    }

    pub open spec fn len(self) -> int {
        24int + self.addr4_part().len() + self.qos_part().len()
    }

    pub open spec fn parts(self) -> Seq<Seq<u8>> {
        seq![
            seq![(self.subtype * 16 + 2 * 4 + self.version) as u8],
            seq![self.flags],
            wire::l16(self.duration),
            self.addr1,
            self.addr2,
            self.addr3,
            wire::l16((self.sequence * 16 + self.fragment) as u16),
            self.addr4_part(),
            self.qos_part(),
        ]
    }

    /// The header as it is on the air (IEEE 802.11, 9.3.2).
    pub open spec fn written(self) -> Seq<u8> {
        wire::laid_out(self.parts())
    }

    /// What is to be read of it.
    pub open spec fn told(self, ctx: Context) -> Fields {
        let keys = map![
            "addr1"@ => ValueView::Bytes(self.addr1),
            "addr2"@ => ValueView::Bytes(self.addr2),
        ];
        let structure = map![
            "frame_type"@ => ValueView::U64(2),
            "frame_subtype"@ => ValueView::U64(self.subtype as u64),
            "flags"@ => ValueView::U64(self.flags as u64),
            "duration"@ => ValueView::U64(self.duration as u64),
            "seq_num"@ => ValueView::U64(self.sequence as u64),
            "addr3"@ => ValueView::Bytes(self.addr3),
        ];
        let others = Map::<Seq<char>, ValueView>::empty();
        let others = wire::with(others, self.is_bridged(), "addr4"@, ValueView::Bytes(self.addr4));
        let others = wire::with(others, self.subtype >= 8, "qos_control"@, ValueView::U64(self.qos as u64));
        wire::shown(ctx, keys, structure, others)
    }
}

/// A data frame is read as it was written; what it carries is an LLC header, unless it
/// is protected.
pub proof fn dot11_data_reads_what_was_written(h: Dot11Data, payload: Seq<u8>, ctx: Context)
    requires
        h.fits(),
    ensures
        Dot11.spec_parse(h.written() + payload, ctx) == Ok::<Parsed, ParseError>(
            Parsed { header_len: h.len(), fields: h.told(ctx), hint: if payload.len() > 0 && h.flags / 64 % 2 == 0 {
                Hint::ByProtocol("llc")
            } else {
                Hint::Terminal
            } },
        ),
{
    let p = h.parts();
    let b = h.written() + payload;
    wire::parts_stand(p, payload);
    assert(p[0].len() == 1);
    assert(wire::offset(p, 1) == 1);
    assert(p[1].len() == 1);
    assert(wire::offset(p, 2) == 2);
    assert(p[2].len() == 2);
    assert(wire::offset(p, 3) == 4);
    assert(p[3].len() == 6);
    assert(wire::offset(p, 4) == 10);
    assert(p[4].len() == 6);
    assert(wire::offset(p, 5) == 16);
    assert(p[5].len() == 6);
    assert(wire::offset(p, 6) == 22);
    assert(p[6].len() == 2);
    assert(wire::offset(p, 7) == 24);
    assert(p[7] == h.addr4_part());
    assert(wire::offset(p, 8) == 24 + h.addr4_part().len());
    assert(p[8] == h.qos_part());
    assert(wire::offset(p, 9) == 24 + h.addr4_part().len() + h.qos_part().len());
    wire::read_byte(b, 0, (h.subtype * 16 + 2 * 4 + h.version) as u8);
    wire::read_byte(b, 1, h.flags);
    wire::read16_le(b, 2, h.duration);
    assert(wire::stands(b, 4, p[3]));
    assert(wire::stands(b, 10, p[4]));
    assert(wire::stands(b, 16, p[5]));
    wire::read16_le(b, 22, (h.sequence * 16 + h.fragment) as u16);
    assert(wire::stands(b, 24, p[7]));
    assert(wire::stands(b, (24 + h.addr4_part().len()) as int, p[8]));
    lemma_control(h.version as int, 2, h.subtype as int);
    wire::bits8(h.flags);
    wire::bits16((h.sequence * 16 + h.fragment) as u16);
    assert(dot11::has_addr4(b) <==> h.is_bridged());
    assert(dot11::has_qos(b) <==> h.subtype >= 8);
    if h.subtype >= 8 {
        wire::read16_le(b, dot11::qos_at(b), h.qos);
    }
    assert(dot11::fields(b, ctx) =~= h.told(ctx));
}

/// Two such headers are of one conversation exactly if they have the same two endpoints, in
/// either direction; and the two directions differ.
pub proof fn dot11_data_tells_conversations(h: Dot11Data, g: Dot11Data, ctx: Context)
    requires
        ctx.depth is Keys,
        h.fits(),
        g.fits(),
    ensures
        wire::is_keyed_by(Dot11.spec_identity(), (KeyField { a: "addr1", b: Some("addr2") })),
        wire::one_conversation(Dot11.spec_identity()->0, h.told(ctx), g.told(ctx)) <==> ((h.addr1 == g.addr1 && h.addr2 == g.addr2) || (h.addr1 == g.addr2 && h.addr2 == g.addr1)),
        h.addr1 == g.addr2 && h.addr2 == g.addr1 && h.addr1 != h.addr2 ==> key::key_of(
            Dot11.spec_identity()->0,
            h.told(ctx),
        )->Ok_0.1 == key::key_of(Dot11.spec_identity()->0, g.told(ctx))->Ok_0.1.flipped(),
{
    let kf = KeyField { a: "addr1", b: Some("addr2") };
    reveal_strlit("addr1");
    reveal_strlit("addr2");
    assert("addr1"@[4] != "addr2"@[4]);
    let identity = Dot11.spec_identity()->0;
    assert(identity.key =~= seq![kf]);
    wire::pairs_tell_conversations(identity, kf, h.told(ctx), g.told(ctx));
}

/// The parts of an 802.11 management frame; the whole frame is its header.
pub ghost struct Dot11Management {
    pub version: u8,
    pub subtype: u8,
    pub flags: u8,
    pub duration: u16,
    pub addr1: Seq<u8>,
    pub addr2: Seq<u8>,
    pub addr3: Seq<u8>,
    pub fragment: u8,
    pub sequence: u16,
    pub body: Seq<u8>,
    pub elements: Seq<Item>,
}

impl Dot11Management {
    /// Whether every part has room where it stands.
    pub open spec fn fits(self) -> bool {
        &&& self.version < 4
        &&& self.subtype < 16
        &&& self.addr1.len() == 6
        &&& self.addr2.len() == 6
        &&& self.addr3.len() == 6
        &&& self.fragment < 16
        &&& self.sequence < 0x1000
        &&& self.subtype == 4 ==> self.body.len() == 0
        &&& self.subtype == 8 || self.subtype == 5 ==> self.body.len() == 12
        &&& forall|i: int| 0 <= i < self.elements.len() ==> 0 <= (#[trigger] self.elements[i]).kind < 256 && self.elements[i].value.len() < 256
    }

    pub open spec fn elements_part(self) -> Seq<u8> {
        elements(self.elements)
    }

    /// The network that a beacon, a probe or its answer names.
    pub open spec fn network(self) -> Option<Seq<char>> {
        if self.subtype == 4 || self.subtype == 5 || self.subtype == 8 {
            match wire::earliest(self.elements, 0, None) {
                Some(v) => Some(wire::legible(v, true)),
                None => None,
            }
        } else {
            None
        }
    }

    pub open spec fn parts(self) -> Seq<Seq<u8>> {
        seq![
            seq![(self.subtype * 16 + self.version) as u8],
            seq![self.flags],
            wire::l16(self.duration),
            self.addr1,
            self.addr2,
            self.addr3,
            wire::l16((self.sequence * 16 + self.fragment) as u16),
            self.body,
            self.elements_part(),
        ]
    }

    /// The frame as it is on the air (IEEE 802.11, 9.3.3): a beacon or a probe response has
    /// twelve bytes ahead of its elements, a probe request none.
    pub open spec fn written(self) -> Seq<u8> {
        wire::laid_out(self.parts())
    }

    /// What is to be read of it.
    pub open spec fn told(self, ctx: Context) -> Fields {
        let keys = map![
            "addr1"@ => ValueView::Bytes(self.addr1),
            "addr2"@ => ValueView::Bytes(self.addr2),
        ];
        let structure = map![
            "frame_type"@ => ValueView::U64(0),
            "frame_subtype"@ => ValueView::U64(self.subtype as u64),
            "flags"@ => ValueView::U64(self.flags as u64),
            "duration"@ => ValueView::U64(self.duration as u64),
            "seq_num"@ => ValueView::U64(self.sequence as u64),
            "addr3"@ => ValueView::Bytes(self.addr3),
        ];
        let others = Map::<Seq<char>, ValueView>::empty();
        let others = wire::with(others, self.network() is Some, "ssid"@, ValueView::Str(self.network()->0));
        wire::shown(ctx, keys, structure, others)
    }
}

/// A management frame is read as it was written.
pub proof fn dot11_management_reads_what_was_written(h: Dot11Management, payload: Seq<u8>, ctx: Context)
    requires
        h.fits(),
        payload.len() == 0,
    ensures
        Dot11.spec_parse(h.written() + payload, ctx) == Ok::<Parsed, ParseError>(
            Parsed { header_len: 24int + h.body.len() + h.elements_part().len(), fields: h.told(ctx), hint: Hint::Terminal },
        ),
{
    let p = h.parts();
    let b = h.written() + payload;
    wire::parts_stand(p, payload);
    assert(p[0].len() == 1);
    assert(wire::offset(p, 1) == 1);
    assert(p[1].len() == 1);
    assert(wire::offset(p, 2) == 2);
    assert(p[2].len() == 2);
    assert(wire::offset(p, 3) == 4);
    assert(p[3].len() == 6);
    assert(wire::offset(p, 4) == 10);
    assert(p[4].len() == 6);
    assert(wire::offset(p, 5) == 16);
    assert(p[5].len() == 6);
    assert(wire::offset(p, 6) == 22);
    assert(p[6].len() == 2);
    assert(wire::offset(p, 7) == 24);
    assert(p[7] == h.body);
    assert(wire::offset(p, 8) == 24 + h.body.len());
    assert(p[8] == h.elements_part());
    assert(wire::offset(p, 9) == 24 + h.body.len() + h.elements_part().len());
    wire::read_byte(b, 0, (h.subtype * 16 + h.version) as u8);
    wire::read_byte(b, 1, h.flags);
    wire::read16_le(b, 2, h.duration);
    assert(wire::stands(b, 4, p[3]));
    assert(wire::stands(b, 10, p[4]));
    assert(wire::stands(b, 16, p[5]));
    wire::read16_le(b, 22, (h.sequence * 16 + h.fragment) as u16);
    assert(wire::stands(b, 24, p[7]));
    assert(wire::stands(b, (24 + h.body.len()) as int, p[8]));
    lemma_control(h.version as int, 0, h.subtype as int);
    wire::bits16((h.sequence * 16 + h.fragment) as u16);
    let head = b.take(24int + h.body.len());
    assert(b =~= head + h.elements_part());
    ssids_are_found(h.elements, head);
    assert(dot11::fields(b, ctx) =~= h.told(ctx));
}

/// The parts of an 802.11 control frame; CTS and ACK have one address only.
pub ghost struct Dot11Control {
    pub version: u8,
    pub subtype: u8,
    pub flags: u8,
    pub duration: u16,
    pub addr1: Seq<u8>,
    pub addr2: Seq<u8>,
}

impl Dot11Control {
    /// Whether every part has room where it stands.
    pub open spec fn fits(self) -> bool {
        &&& self.version < 4
        &&& self.subtype < 16
        &&& self.addr1.len() == 6
        &&& self.addr2.len() == 6
    }

    pub open spec fn is_lone(self) -> bool {
        self.subtype == 12 || self.subtype == 13
    }

    pub open spec fn addr2_part(self) -> Seq<u8> {
        if self.is_lone() {
            Seq::empty()
        } else {
            self.addr2
        }
    }

    pub open spec fn parts(self) -> Seq<Seq<u8>> {
        seq![
            seq![(self.subtype * 16 + 4 + self.version) as u8],
            seq![self.flags],
            wire::l16(self.duration),
            self.addr1,
            self.addr2_part(),
        ]
    }

    /// The frame as it is on the air (IEEE 802.11, 9.3.1).
    pub open spec fn written(self) -> Seq<u8> {
        wire::laid_out(self.parts())
    }

    /// What is to be read of it.
    pub open spec fn told(self, ctx: Context) -> Fields {
        let keys = map![
            "addr1"@ => ValueView::Bytes(self.addr1),
        ];
        let keys = wire::with(keys, !self.is_lone(), "addr2"@, ValueView::Bytes(self.addr2));
        let structure = map![
            "frame_type"@ => ValueView::U64(1),
            "frame_subtype"@ => ValueView::U64(self.subtype as u64),
            "flags"@ => ValueView::U64(self.flags as u64),
            "duration"@ => ValueView::U64(self.duration as u64),
        ];
        let others = Map::<Seq<char>, ValueView>::empty();
        wire::shown(ctx, keys, structure, others)
    }
}

/// A control frame is read as it was written.
pub proof fn dot11_control_reads_what_was_written(h: Dot11Control, payload: Seq<u8>, ctx: Context)
    requires
        h.fits(),
    ensures
        Dot11.spec_parse(h.written() + payload, ctx) == Ok::<Parsed, ParseError>(
            Parsed { header_len: 10int + h.addr2_part().len(), fields: h.told(ctx), hint: Hint::Terminal },
        ),
{
    let p = h.parts();
    let b = h.written() + payload;
    wire::parts_stand(p, payload);
    assert(p[0].len() == 1);
    assert(wire::offset(p, 1) == 1);
    assert(p[1].len() == 1);
    assert(wire::offset(p, 2) == 2);
    assert(p[2].len() == 2);
    assert(wire::offset(p, 3) == 4);
    assert(p[3].len() == 6);
    assert(wire::offset(p, 4) == 10);
    assert(p[4] == h.addr2_part());
    assert(wire::offset(p, 5) == 10 + h.addr2_part().len());
    wire::read_byte(b, 0, (h.subtype * 16 + 4 + h.version) as u8);
    wire::read_byte(b, 1, h.flags);
    wire::read16_le(b, 2, h.duration);
    assert(wire::stands(b, 4, p[3]));
    assert(wire::stands(b, 10, p[4]));
    lemma_control(h.version as int, 1, h.subtype as int);
    assert(dot11::fields(b, ctx) =~= h.told(ctx));
}

} // verus!

//! Flow export: IPFIX messages.
use vstd::prelude::*;

use crate::bytes::{self, ParseError};
use crate::layer::{Context, Hint, LayerPlugin, Parsed};
use crate::plugins::ipfix::{self, Ipfix};
use crate::plugins::wire;
use crate::value::{Fields, ValueView};

verus! {

/// A field of a template; one of an enterprise has its number behind it.
pub ghost struct FieldDef {
    pub element: u16,
    pub length: u16,
    pub enterprise: Option<u32>,
}

impl FieldDef {
    pub open spec fn written(self) -> Seq<u8> {
        match self.enterprise {
            Some(e) => wire::w16((0x8000 + self.element) as u16) + wire::w16(self.length)
                + wire::w32(e),
            None => wire::w16(self.element) + wire::w16(self.length),
        }
    }

    /// Element, length, and the enterprise's number or zero.
    pub open spec fn told(self) -> ValueView {
        ValueView::List(
            seq![
                ValueView::U64(self.element as u64),
                ValueView::U64(self.length as u64),
                ValueView::U64(
                    match self.enterprise {
                        Some(e) => e as u64,
                        None => 0,
                    },
                ),
            ],
        )
    }
}

/// Fields one after the other.
pub open spec fn defined(list: Seq<FieldDef>) -> Seq<u8>
    decreases list.len(),
{
    if list.len() == 0 {
        Seq::empty()
    } else {
        list[0].written() + defined(list.drop_first())
    }
}

pub open spec fn told_fields(list: Seq<FieldDef>) -> Seq<ValueView> {
    Seq::new(list.len(), |i: int| list[i].told())
}

proof fn lemma_field(b: Seq<u8>, p: int, f: FieldDef)
    requires
        f.element < 0x8000,
        wire::stands(b, p, f.written()),
    ensures
        ipfix::field_def(b, p) == f.told(),
        bytes::be16(b, p) & 0x8000 != 0 <==> f.enterprise is Some,
        f.written().len() == if f.enterprise is Some {
            8int
        } else {
            4
        },
{
    let w = f.written();
    let s = b.subrange(p, p + w.len());
    assert(b.subrange(p, p + 2) =~= s.subrange(0, 2));
    assert(b.subrange(p + 2, p + 4) =~= s.subrange(2, 4));
    assert(w.subrange(2, 4) =~= wire::w16(f.length));
    wire::read16(b, p + 2, f.length);
    if f.enterprise is Some {
        let e = (0x8000 + f.element) as u16;
        assert(w.subrange(0, 2) =~= wire::w16(e));
        wire::read16(b, p, e);
        wire::bits16(e);
        assert(e & !0x8000u16 == e - 0x8000) by (bit_vector)
            requires
                e >= 0x8000,
        ;
        assert(b.subrange(p + 4, p + 8) =~= s.subrange(4, 8));
        assert(w.subrange(4, 8) =~= wire::w32(f.enterprise->0));
        wire::read32(b, p + 4, f.enterprise->0);
        assert(e & !ipfix::ENTERPRISE_BIT == f.element);
        assert(seq![
            ValueView::U64((e & !ipfix::ENTERPRISE_BIT) as u64),
            ValueView::U64(f.length as u64),
            ValueView::U64(f.enterprise->0 as u64),
        ] =~= f.told()->List_0);
    } else {
        assert(w.subrange(0, 2) =~= wire::w16(f.element));
        wire::read16(b, p, f.element);
        wire::bits16(f.element);
        assert(seq![
            ValueView::U64(f.element as u64),
            ValueView::U64(f.length as u64),
            ValueView::U64(0),
        ] =~= f.told()->List_0);
    }
}

proof fn lemma_fields(list: Seq<FieldDef>, seen: Seq<ValueView>, head: Seq<u8>, rest: Seq<u8>)
    requires
        forall|i: int| 0 <= i < list.len() ==> (#[trigger] list[i]).element < 0x8000,
    ensures
        ipfix::field_defs(
            head + defined(list) + rest,
            head.len() as int,
            list.len() as int,
            seen,
        ) == Ok::<(Seq<ValueView>, int), ParseError>(
            (seen + told_fields(list), (head.len() + defined(list).len()) as int),
        ),
    decreases list.len(),
{
    let b = head + defined(list) + rest;
    let p = head.len() as int;
    if list.len() == 0 {
        assert(seen + told_fields(list) =~= seen);
    } else {
        let f = list[0];
        let more = list.drop_first();
        let one = f.written();
        assert(list[0].element < 0x8000);
        assert(head + one + defined(more) + rest =~= b);
        assert(b.subrange(p, p + one.len()) =~= one);
        lemma_field(b, p, f);
        assert forall|i: int| 0 <= i < more.len() implies (#[trigger] more[i]).element < 0x8000 by {
            assert(more[i] == list[i + 1]);
        }
        let next = seen.push(f.told());
        lemma_fields(more, next, head + one, rest);
        assert(next + told_fields(more) =~= seen + told_fields(list)) by {
            assert forall|i: int| 0 <= i < more.len() implies told_fields(more)[i] == told_fields(
                list,
            )[i + 1] by {
                assert(more[i] == list[i + 1]);
            }
        }
    }
}

/// A template: its id and its fields.
pub ghost struct Template {
    pub id: u16,
    pub fields: Seq<FieldDef>,
}

impl Template {
    pub open spec fn fits(self) -> bool {
        &&& self.fields.len() < 0x1_0000
        &&& forall|i: int|
            0 <= i < self.fields.len() ==> (#[trigger] self.fields[i]).element < 0x8000
    }

    pub open spec fn written(self) -> Seq<u8> {
        wire::w16(self.id) + wire::w16(self.fields.len() as u16) + defined(self.fields)
    }

    pub open spec fn told(self) -> ValueView {
        ValueView::List(
            seq![
                ValueView::U64(self.id as u64),
                ValueView::U64(self.fields.len() as u64),
                ValueView::List(told_fields(self.fields)),
            ],
        )
    }
}

/// Templates one after the other.
pub open spec fn templates(list: Seq<Template>) -> Seq<u8>
    decreases list.len(),
{
    if list.len() == 0 {
        Seq::empty()
    } else {
        list[0].written() + templates(list.drop_first())
    }
}

pub open spec fn told_templates(list: Seq<Template>) -> Seq<ValueView> {
    Seq::new(list.len(), |i: int| list[i].told())
}

/// One template is read where it stands.
proof fn lemma_template(b: Seq<u8>, p: int, t: Template, seen: Seq<ValueView>)
    requires
        t.fits(),
        wire::stands(b, p, t.written()),
    ensures
        ipfix::templates(b, p, seen) == ipfix::templates(
            b,
            p + t.written().len(),
            seen.push(t.told()),
        ),
{
    let n = t.fields.len() as u16;
    let w = t.written();
    let d = defined(t.fields);
    let s = b.subrange(p, p + w.len());
    assert(b.subrange(p, p + 2) =~= s.subrange(0, 2));
    assert(w.subrange(0, 2) =~= wire::w16(t.id));
    assert(b.subrange(p + 2, p + 4) =~= s.subrange(2, 4));
    assert(w.subrange(2, 4) =~= wire::w16(n));
    wire::read16(b, p, t.id);
    wire::read16(b, p + 2, n);
    assert(b.subrange(p + 4, p + 4 + d.len()) =~= s.subrange(4, 4int + d.len()));
    assert(w.subrange(4, 4int + d.len()) =~= d);
    let rest = b.skip(p + 4 + d.len());
    assert(b.take(p + 4) + d + rest =~= b);
    lemma_fields(t.fields, Seq::empty(), b.take(p + 4), rest);
    assert(Seq::<ValueView>::empty() + told_fields(t.fields) =~= told_fields(t.fields));
    assert(seq![
        ValueView::U64(t.id as u64),
        ValueView::U64(n as u64),
        ValueView::List(told_fields(t.fields)),
    ] =~= t.told()->List_0);
}

proof fn lemma_templates(
    list: Seq<Template>,
    seen: Seq<ValueView>,
    head: Seq<u8>,
    padding: Seq<u8>,
)
    requires
        forall|i: int| 0 <= i < list.len() ==> (#[trigger] list[i]).fits(),
        padding.len() < 4,
    ensures
        ipfix::templates(head + templates(list) + padding, head.len() as int, seen) == Ok::<
            Seq<ValueView>,
            ParseError,
        >(seen + told_templates(list)),
    decreases list.len(),
{
    let b = head + templates(list) + padding;
    let p = head.len() as int;
    if list.len() == 0 {
        assert(b =~= head + padding);
        assert(seen + told_templates(list) =~= seen);
    } else {
        let t = list[0];
        let more = list.drop_first();
        let one = t.written();
        assert(list[0].fits());
        assert(head + one + templates(more) + padding =~= b);
        assert(b.subrange(p, p + one.len()) =~= one);
        lemma_template(b, p, t, seen);
        assert forall|i: int| 0 <= i < more.len() implies (#[trigger] more[i]).fits() by {
            assert(more[i] == list[i + 1]);
        }
        let next = seen.push(t.told());
        lemma_templates(more, next, head + one, padding);
        assert(next + told_templates(more) =~= seen + told_templates(list)) by {
            assert forall|i: int| 0 <= i < more.len() implies told_templates(more)[i]
                == told_templates(list)[i + 1] by {
                assert(more[i] == list[i + 1]);
            }
        }
    }
}

/// A set of a message: templates with some padding, or data of another kind.
pub ghost enum FlowSet {
    Templates(Seq<Template>, Seq<u8>),
    Data(u16, Seq<u8>),
}

impl FlowSet {
    pub open spec fn fits(self) -> bool {
        &&& self.body().len() + 4 < 0x1_0000
        &&& match self {
            FlowSet::Templates(list, padding) => padding.len() < 4 && forall|i: int|
                0 <= i < list.len() ==> (#[trigger] list[i]).fits(),
            FlowSet::Data(id, _) => id != 2,
        }
    }

    pub open spec fn id(self) -> u16 {
        match self {
            FlowSet::Templates(_, _) => 2,
            FlowSet::Data(id, _) => id,
        }
    }

    pub open spec fn body(self) -> Seq<u8> {
        match self {
            FlowSet::Templates(list, padding) => templates(list) + padding,
            FlowSet::Data(_, data) => data,
        }
    }

    pub open spec fn written(self) -> Seq<u8> {
        wire::w16(self.id()) + wire::w16((self.body().len() + 4) as u16) + self.body()
    }

    /// Its number, its length with these two, and its templates or its bytes.
    pub open spec fn told(self) -> ValueView {
        ValueView::List(
            seq![
                ValueView::U64(self.id() as u64),
                ValueView::U64((self.body().len() + 4) as u64),
                match self {
                    FlowSet::Templates(list, _) => ValueView::List(told_templates(list)),
                    FlowSet::Data(_, data) => ValueView::Bytes(data),
                },
            ],
        )
    }
}

/// Sets one after the other.
pub open spec fn sets(list: Seq<FlowSet>) -> Seq<u8>
    decreases list.len(),
{
    if list.len() == 0 {
        Seq::empty()
    } else {
        list[0].written() + sets(list.drop_first())
    }
}

pub open spec fn told_sets(list: Seq<FlowSet>) -> Seq<ValueView> {
    Seq::new(list.len(), |i: int| list[i].told())
}

proof fn lemma_body(s: FlowSet)
    requires
        s.fits(),
    ensures
        ipfix::set_body(s.id(), s.body()) is Ok,
        s.told() == ValueView::List(
            seq![
                ValueView::U64(s.id() as u64),
                ValueView::U64((s.body().len() + 4) as u64),
                ipfix::set_body(s.id(), s.body())->Ok_0,
            ],
        ),
{
    let third = match s {
        FlowSet::Templates(list, _) => ValueView::List(told_templates(list)),
        FlowSet::Data(_, data) => ValueView::Bytes(data),
    };
    assert(s.told()->List_0 =~= seq![
        ValueView::U64(s.id() as u64),
        ValueView::U64((s.body().len() + 4) as u64),
        third,
    ]);
    if let FlowSet::Templates(list, padding) = s {
        let none = Seq::<u8>::empty();
        assert(none + templates(list) + padding =~= s.body());
        lemma_templates(list, Seq::empty(), none, padding);
        assert(Seq::<ValueView>::empty() + told_templates(list) =~= told_templates(list));
    }
}

proof fn lemma_sets(list: Seq<FlowSet>, seen: Seq<ValueView>, head: Seq<u8>)
    requires
        forall|i: int| 0 <= i < list.len() ==> (#[trigger] list[i]).fits(),
    ensures
        ipfix::sets(head + sets(list), head.len() as int, seen) == Ok::<
            Seq<ValueView>,
            ParseError,
        >(seen + told_sets(list)),
    decreases list.len(),
{
    let b = head + sets(list);
    let p = head.len() as int;
    if list.len() == 0 {
        assert(b =~= head);
        assert(seen + told_sets(list) =~= seen);
    } else {
        let s = list[0];
        let more = list.drop_first();
        let one = s.written();
        let n = (s.body().len() + 4) as u16;
        assert(list[0].fits());
        assert(head + one + sets(more) =~= b);
        assert(b.subrange(p, p + 2) =~= wire::w16(s.id()));
        assert(b.subrange(p + 2, p + 4) =~= wire::w16(n));
        wire::read16(b, p, s.id());
        wire::read16(b, p + 2, n);
        assert(b.subrange(p + 4, p + n) =~= s.body());
        lemma_body(s);
        assert forall|i: int| 0 <= i < more.len() implies (#[trigger] more[i]).fits() by {
            assert(more[i] == list[i + 1]);
        }
        let next = seen.push(s.told());
        lemma_sets(more, next, head + one);
        assert(next + told_sets(more) =~= seen + told_sets(list)) by {
            assert forall|i: int| 0 <= i < more.len() implies told_sets(more)[i] == told_sets(
                list,
            )[i + 1] by {
                assert(more[i] == list[i + 1]);
            }
        }
    }
}

/// The parts of an IPFIX message.
pub ghost struct IpfixMessage {
    pub time: u32,
    pub sequence: u32,
    pub domain: u32,
    pub sets: Seq<FlowSet>,
}

impl IpfixMessage {
    /// Whether every part has room where it stands.
    pub open spec fn fits(self) -> bool {
        &&& forall|i: int| 0 <= i < self.sets.len() ==> (#[trigger] self.sets[i]).fits()
        &&& self.len() < 0x1_0000
    }

    pub open spec fn sets_part(self) -> Seq<u8> {
        sets(self.sets)
    }

    pub open spec fn len(self) -> int {
        16int + self.sets_part().len()
    }

    pub open spec fn parts(self) -> Seq<Seq<u8>> {
        seq![
            wire::w16(10),
            wire::w16(self.len() as u16),
            wire::w32(self.time),
            wire::w32(self.sequence),
            wire::w32(self.domain),
            self.sets_part(),
        ]
    }

    /// The message as it is on the wire (RFC 7011, 3.1).
    pub open spec fn written(self) -> Seq<u8> {
        wire::laid_out(self.parts())
    }

    /// What is to be read of it.
    pub open spec fn told(self, ctx: Context) -> Fields {
        let keys = map![
            "app"@ => ValueView::Str("ipfix"@),
        ];
        let structure = map![
            "version"@ => ValueView::U64(10),
            "length"@ => ValueView::U64(self.len() as u64),
            "sequence"@ => ValueView::U64(self.sequence as u64),
            "domain_id"@ => ValueView::U64(self.domain as u64),
        ];
        let others = map![
            "sets"@ => ValueView::List(told_sets(self.sets)),
        ];
        wire::shown(ctx, keys, structure, others)
    }
}

/// An IPFIX message is read as it was written; another one behind it is left alone.
pub proof fn ipfix_reads_what_was_written(h: IpfixMessage, payload: Seq<u8>, ctx: Context)
    requires
        h.fits(),
    ensures
        Ipfix.spec_parse(h.written() + payload, ctx) == Ok::<Parsed, ParseError>(
            Parsed { header_len: h.len(), fields: h.told(ctx), hint: Hint::Terminal },
        ),
{
    let p = h.parts();
    let b = h.written() + payload;
    wire::parts_stand(p, payload);
    assert(p[0].len() == 2);
    assert(wire::offset(p, 1) == 2);
    assert(p[1].len() == 2);
    assert(wire::offset(p, 2) == 4);
    assert(p[2].len() == 4);
    assert(wire::offset(p, 3) == 8);
    assert(p[3].len() == 4);
    assert(wire::offset(p, 4) == 12);
    assert(p[4].len() == 4);
    assert(wire::offset(p, 5) == 16);
    assert(p[5] == h.sets_part());
    assert(wire::offset(p, 6) == 16 + h.sets_part().len());
    wire::read16(b, 0, 10);
    wire::read16(b, 2, h.len() as u16);
    wire::read32(b, 4, h.time);
    wire::read32(b, 8, h.sequence);
    wire::read32(b, 12, h.domain);
    assert(wire::stands(b, 16, p[5]));
    let none = Seq::<u8>::empty();
    assert(b.subrange(16, h.len()) =~= none + h.sets_part());
    lemma_sets(h.sets, Seq::empty(), none);
    assert(Seq::<ValueView>::empty() + told_sets(h.sets) =~= told_sets(h.sets));
    assert(ipfix::fields(b, told_sets(h.sets), ctx) =~= h.told(ctx));
}

} // verus!

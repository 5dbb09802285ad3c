//! DHCPv6 messages.
use vstd::prelude::*;

use crate::bytes::{self, ParseError};
use crate::layer::{Context, Hint, LayerPlugin, Parsed};
use crate::plugins::dhcpv6::{self, Dhcpv6};
use crate::plugins::wire::{self, Item};
use crate::value::{Fields, ValueView};

verus! {

/// DHCPv6 options: code, length, content.
pub open spec fn coded(list: Seq<Item>) -> Seq<u8>
    decreases list.len(),
{
    if list.len() == 0 {
        Seq::empty()
    } else {
        wire::w16(list[0].kind as u16) + wire::w16(list[0].value.len() as u16) + list[0].value
            + coded(list.drop_first())
    }
}

/// Whether options can stand in a message.
pub open spec fn are_coded(list: Seq<Item>) -> bool {
    forall|i: int|
        0 <= i < list.len() ==> 0 <= (#[trigger] list[i]).kind < 0x1_0000 && list[i].value.len()
            < 0x1_0000
}

proof fn lemma_coded(list: Seq<Item>, head: Seq<u8>)
    requires
        are_coded(list),
        list.len() > 0,
    ensures
        ({
            let b = head + coded(list);
            let p = head.len() as int;
            let one = wire::w16(list[0].kind as u16) + wire::w16(list[0].value.len() as u16)
                + list[0].value;
            &&& dhcpv6::option_short(b, p) is None
            &&& bytes::be16(b, p) == list[0].kind
            &&& bytes::be16(b, p + 2) == list[0].value.len()
            &&& dhcpv6::option_data(b, p) == list[0].value
            &&& one.len() == 4 + list[0].value.len()
            &&& b == head + one + coded(list.drop_first())
            &&& are_coded(list.drop_first())
            &&& p < b.len()
        }),
{
    let it = list[0];
    let b = head + coded(list);
    let p = head.len() as int;
    let n = it.value.len() as u16;
    let more = list.drop_first();
    assert(0 <= list[0].kind < 0x1_0000);
    let one = wire::w16(it.kind as u16) + wire::w16(n) + it.value;
    assert(b =~= head + one + coded(more));
    assert(b.subrange(p, p + 2) =~= wire::w16(it.kind as u16));
    assert(b.subrange(p + 2, p + 4) =~= wire::w16(n));
    wire::read16(b, p, it.kind as u16);
    wire::read16(b, p + 2, n);
    assert(b.subrange(p + 4, p + 4 + n) =~= it.value);
    assert forall|i: int| 0 <= i < more.len() implies 0 <= (#[trigger] more[i]).kind < 0x1_0000
        && more[i].value.len() < 0x1_0000 by {
        assert(more[i] == list[i + 1]);
    }
}

/// An address with its two lifetimes, as an IA Address option holds them.
pub open spec fn lease_bytes(l: dhcpv6::Lease, rest: Seq<u8>) -> Seq<u8> {
    l.address + wire::w32(l.preferred) + wire::w32(l.valid) + rest
}

/// An address and its lifetimes are read as they were written.
pub proof fn leases_are_read(l: dhcpv6::Lease, rest: Seq<u8>)
    requires
        l.address.len() == 16,
    ensures
        dhcpv6::ia_address(lease_bytes(l, rest)) == Ok::<dhcpv6::Lease, ParseError>(l),
{
    let s = lease_bytes(l, rest);
    assert(s.subrange(0, 16) =~= l.address);
    assert(s.subrange(16, 20) =~= wire::w32(l.preferred));
    assert(s.subrange(20, 24) =~= wire::w32(l.valid));
    wire::read32(s, 16, l.preferred);
    wire::read32(s, 20, l.valid);
}

/// Whether every address option of a list holds a lease.
pub open spec fn hold_leases(list: Seq<Item>) -> bool {
    forall|i: int|
        0 <= i < list.len() && (#[trigger] list[i]).kind == 5 ==> list[i].value.len() >= 24
}

/// The lease in the first address option of a list: 16 bytes of address, then the two
/// lifetimes.
pub open spec fn lease_in(list: Seq<Item>) -> Option<dhcpv6::Lease> {
    match wire::earliest(list, 5, None) {
        Some(v) => Some(
            dhcpv6::Lease {
                address: v.take(16),
                preferred: (v[16] * 0x100_0000 + v[17] * 0x1_0000 + v[18] * 0x100 + v[19]) as u32,
                valid: (v[20] * 0x100_0000 + v[21] * 0x1_0000 + v[22] * 0x100 + v[23]) as u32,
            },
        ),
        None => None,
    }
}

proof fn lemma_addresses(list: Seq<Item>, head: Seq<u8>, found: Option<dhcpv6::Lease>)
    requires
        are_coded(list),
        hold_leases(list),
    ensures
        dhcpv6::first_address(head + coded(list), head.len() as int, found) == Ok::<
            Option<dhcpv6::Lease>,
            ParseError,
        >(
            if found is Some {
                found
            } else {
                lease_in(list)
            },
        ),
    decreases list.len(),
{
    let b = head + coded(list);
    if list.len() == 0 {
        assert(b =~= head);
    } else {
        let it = list[0];
        let more = list.drop_first();
        lemma_coded(list, head);
        let one = wire::w16(it.kind as u16) + wire::w16(it.value.len() as u16) + it.value;
        assert(list[0].kind == 5 ==> list[0].value.len() >= 24);
        assert forall|i: int| 0 <= i < more.len() && (#[trigger] more[i]).kind
            == 5 implies more[i].value.len() >= 24 by {
            assert(more[i] == list[i + 1]);
        }
        if it.kind == 5 && found is None {
            let l = dhcpv6::ia_address(it.value)->Ok_0;
            assert(it.value.subrange(0, 16) =~= it.value.take(16));
            lemma_addresses(more, head + one, Some(l));
        } else {
            lemma_addresses(more, head + one, found);
        }
    }
}

/// An option of a message: one with plain content, or an identity association, temporary
/// or not, with options of its own.
pub ghost enum Given {
    Plain(Item),
    Association(bool, Seq<u8>, Seq<Item>),
}

impl Given {
    pub open spec fn fits(self) -> bool {
        match self {
            Given::Plain(it) => 0 <= it.kind < 0x1_0000 && it.kind != 3 && it.kind != 4
                && it.value.len() < 0x1_0000,
            Given::Association(temporary, head, inner) => {
                &&& head.len() == if temporary {
                    4int
                } else {
                    12
                }
                &&& are_coded(inner)
                &&& hold_leases(inner)
                &&& head.len() + coded(inner).len() < 0x1_0000
            },
        }
    }

    pub open spec fn item(self) -> Item {
        match self {
            Given::Plain(it) => it,
            Given::Association(temporary, head, inner) => Item {
                kind: if temporary {
                    4
                } else {
                    3
                },
                value: head + coded(inner),
            },
        }
    }

    /// The lease that an association gives.
    pub open spec fn lease(self) -> Option<dhcpv6::Lease> {
        match self {
            Given::Plain(_) => None,
            Given::Association(_, _, inner) => lease_in(inner),
        }
    }
}

/// The options as they are coded.
pub open spec fn items(list: Seq<Given>) -> Seq<Item> {
    Seq::new(list.len(), |i: int| list[i].item())
}

/// The first lease that an association gives.
pub open spec fn first_lease(list: Seq<Given>) -> Option<dhcpv6::Lease>
    decreases list.len(),
{
    if list.len() == 0 {
        None
    } else if list[0].lease() is Some {
        list[0].lease()
    } else {
        first_lease(list.drop_first())
    }
}

/// What options say after `o`: of each kind the first counts.
pub open spec fn said_by(list: Seq<Given>, o: dhcpv6::Options) -> dhcpv6::Options {
    dhcpv6::Options {
        client_duid: if o.client_duid is Some {
            o.client_duid
        } else {
            wire::earliest(items(list), 1, None)
        },
        server_duid: if o.server_duid is Some {
            o.server_duid
        } else {
            wire::earliest(items(list), 2, None)
        },
        lease: if o.lease is Some {
            o.lease
        } else {
            first_lease(list)
        },
    }
}

/// One option, whatever it is.
proof fn lemma_given(g: Given, o: dhcpv6::Options)
    requires
        g.fits(),
    ensures
        dhcpv6::with_option(o, g.item().kind as u16, g.item().value) == Ok::<
            dhcpv6::Options,
            ParseError,
        >(
            dhcpv6::Options {
                client_duid: if o.client_duid is None && g.item().kind == 1 {
                    Some(g.item().value)
                } else {
                    o.client_duid
                },
                server_duid: if o.server_duid is None && g.item().kind == 2 {
                    Some(g.item().value)
                } else {
                    o.server_duid
                },
                lease: if o.lease is None {
                    g.lease()
                } else {
                    o.lease
                },
            },
        ),
{
    match g {
        Given::Plain(_) => {},
        Given::Association(temporary, head, inner) => {
            let v = head + coded(inner);
            let none = Seq::<u8>::empty();
            assert(v.subrange(head.len() as int, v.len() as int) =~= none + coded(inner));
            lemma_addresses(inner, none, None);
        },
    }
}

/// Options are read as they were written, in any order and among others.
pub proof fn dhcpv6_options_are_read(list: Seq<Given>, o: dhcpv6::Options, head: Seq<u8>)
    requires
        forall|i: int| 0 <= i < list.len() ==> (#[trigger] list[i]).fits(),
    ensures
        dhcpv6::options(head + coded(items(list)), head.len() as int, o) == Ok::<
            dhcpv6::Options,
            ParseError,
        >(said_by(list, o)),
    decreases list.len(),
{
    let all = items(list);
    let b = head + coded(all);
    if list.len() == 0 {
        assert(b =~= head);
    } else {
        let more = list.drop_first();
        assert(list[0].fits());
        assert(are_coded(all)) by {
            assert forall|i: int| 0 <= i < all.len() implies 0 <= (#[trigger] all[i]).kind
                < 0x1_0000 && all[i].value.len() < 0x1_0000 by {
                assert(list[i].fits());
            }
        }
        lemma_coded(all, head);
        lemma_given(list[0], o);
        let it = all[0];
        let one = wire::w16(it.kind as u16) + wire::w16(it.value.len() as u16) + it.value;
        assert(all.drop_first() =~= items(more));
        assert forall|i: int| 0 <= i < more.len() implies (#[trigger] more[i]).fits() by {
            assert(more[i] == list[i + 1]);
        }
        let next = dhcpv6::with_option(o, it.kind as u16, it.value)->Ok_0;
        dhcpv6_options_are_read(more, next, head + one);
        assert(said_by(more, next) == said_by(list, o));
    }
}

/// The parts of a DHCPv6 message between client and server.
pub ghost struct Dhcpv6Message {
    pub kind: u8,
    pub transaction: u32,
    pub options: Seq<Given>,
}

impl Dhcpv6Message {
    /// Whether every part has room where it stands.
    pub open spec fn fits(self) -> bool {
        &&& self.kind != 12 && self.kind != 13
        &&& self.transaction < 0x100_0000
        &&& forall|i: int| 0 <= i < self.options.len() ==> (#[trigger] self.options[i]).fits()
    }

    pub open spec fn options_part(self) -> Seq<u8> {
        coded(items(self.options))
    }

    pub open spec fn said(self) -> dhcpv6::Options {
        said_by(self.options, dhcpv6::no_options())
    }

    pub open spec fn lease(self) -> dhcpv6::Lease {
        self.said().lease->0
    }

    pub open spec fn parts(self) -> Seq<Seq<u8>> {
        seq![
            seq![self.kind],
            wire::w24(self.transaction),
            self.options_part(),
        ]
    }

    /// The message as it is on the wire (RFC 8415, 8).
    pub open spec fn written(self) -> Seq<u8> {
        wire::laid_out(self.parts())
    }

    /// What is to be read of it.
    pub open spec fn told(self, ctx: Context) -> Fields {
        let keys = map![
            "app"@ => ValueView::Str("dhcpv6"@),
        ];
        let structure = map![
            "msg_type"@ => ValueView::U64(self.kind as u64),
            "transaction_id"@ => ValueView::U64(self.transaction as u64),
        ];
        let others = Map::<Seq<char>, ValueView>::empty();
        let others = wire::with(others, self.said().client_duid is Some, "client_duid"@, ValueView::Bytes(self.said().client_duid->0));
        let others = wire::with(others, self.said().server_duid is Some, "server_duid"@, ValueView::Bytes(self.said().server_duid->0));
        let others = wire::with(others, self.said().lease is Some, "requested_ip"@, ValueView::Bytes(self.lease().address));
        let others = wire::with(others, self.said().lease is Some, "preferred_lifetime"@, ValueView::U64(self.lease().preferred as u64));
        let others = wire::with(others, self.said().lease is Some, "valid_lifetime"@, ValueView::U64(self.lease().valid as u64));
        wire::shown(ctx, keys, structure, others)
    }
}

/// A DHCPv6 message is read as it was written; it fills its datagram.
pub proof fn dhcpv6_reads_what_was_written(h: Dhcpv6Message, payload: Seq<u8>, ctx: Context)
    requires
        h.fits(),
        payload.len() == 0,
    ensures
        Dhcpv6.spec_parse(h.written() + payload, ctx) == Ok::<Parsed, ParseError>(
            Parsed { header_len: 4int + h.options_part().len(), fields: h.told(ctx), hint: Hint::Terminal },
        ),
{
    let p = h.parts();
    let b = h.written() + payload;
    wire::parts_stand(p, payload);
    assert(p[0].len() == 1);
    assert(wire::offset(p, 1) == 1);
    assert(p[1].len() == 3);
    assert(wire::offset(p, 2) == 4);
    assert(p[2] == h.options_part());
    assert(wire::offset(p, 3) == 4 + h.options_part().len());
    wire::read_byte(b, 0, h.kind);
    wire::read24(b, 1, h.transaction);
    assert(wire::stands(b, 4, p[2]));
    let head = b.take(4);
    assert(b =~= head + h.options_part());
    dhcpv6_options_are_read(h.options, dhcpv6::no_options(), head);
    assert(dhcpv6::fields(b, h.said(), ctx) =~= h.told(ctx));
}

} // verus!

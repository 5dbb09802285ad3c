//! Building automation: BACnet/IP messages.
use vstd::prelude::*;

use crate::bytes::{self, ParseError};
use crate::layer::{Context, Hint, LayerPlugin, Parsed};
use crate::plugins::bacnet_ip::{self, BacnetIp};
use crate::plugins::wire;
use crate::value::{Fields, ValueView};

verus! {

/// A network address in an NPDU: network number, length, address.
pub open spec fn routed(address: Option<(u16, Seq<u8>)>) -> Seq<u8> {
    match address {
        Some((network, a)) => wire::w16(network) + seq![a.len() as u8] + a,
        None => Seq::empty(),
    }
}

proof fn lemma_routed(b: Seq<u8>, p: int, address: Option<(u16, Seq<u8>)>)
    requires
        address matches Some((_, a)) ==> a.len() < 256,
        wire::stands(b, p, routed(address)),
    ensures
        bacnet_ip::address_end(b, p, address is Some) == Ok::<int, ParseError>(
            p + routed(address).len(),
        ),
{
    if let Some((network, a)) = address {
        let r = routed(address);
        let s = b.subrange(p, p + r.len());
        assert(b[p + 2] == s[2] && s[2] == r[2]);
    }
}

/// An application message: its type and flags, what stands ahead of the service, and the
/// service, for the types that have one.
pub ghost struct Apdu {
    pub kind: u8,
    pub flags: u8,
    pub ahead: Seq<u8>,
    pub service: u8,
}

impl Apdu {
    /// Invoke ids, window sizes and segment numbers ahead of the service.
    pub open spec fn ahead_len(self) -> int {
        let segments = if self.flags / 8 == 1 {
            2int
        } else {
            0
        };
        if self.kind == 0 {
            2 + segments
        } else if self.kind == 2 {
            1
        } else if self.kind == 3 {
            1 + segments
        } else {
            0
        }
    }

    pub open spec fn fits(self) -> bool {
        self.kind < 16 && self.flags < 16 && self.ahead.len() == self.ahead_len()
    }

    pub open spec fn written(self) -> Seq<u8> {
        seq![(self.kind * 16 + self.flags) as u8] + self.ahead + (if self.kind <= 3 {
            seq![self.service]
        } else {
            Seq::empty()
        })
    }
}

proof fn lemma_apdu(b: Seq<u8>, p: int, a: Apdu, control: u8)
    requires
        a.fits(),
        wire::stands(b, p, a.written()),
    ensures
        bacnet_ip::apdu(b, p, control) == Ok::<bacnet_ip::Walk, ParseError>(
            bacnet_ip::Walk {
                end: p + a.written().len(),
                control: Some(control),
                apdu: Some(a.kind),
                service: if a.kind <= 3 {
                    Some(a.service)
                } else {
                    None
                },
            },
        ),
{
    let w = a.written();
    let s = b.subrange(p, p + w.len());
    let first = (a.kind * 16 + a.flags) as u8;
    assert(b[p] == s[0] && w[0] == first);
    wire::bits8(first);
    assert(first / 16 == a.kind && first / 8 % 2 == a.flags / 8);
    if a.kind <= 3 {
        let n = a.ahead_len();
        assert(w[1 + n] == a.service);
        assert(b[p + 1 + n] == s[1 + n]);
    }
}

/// The parts of a BACnet/IP message with an application message in it.
pub ghost struct BacnetMessage {
    pub function: u8,
    /// The sender whose message is passed on, six bytes.
    pub origin: Seq<u8>,
    /// The low bits of the control byte, and one between the two address bits.
    pub expecting: bool,
    pub priority: u8,
    pub other: bool,
    pub reserved: bool,
    pub destination: Option<(u16, Seq<u8>)>,
    pub source: Option<(u16, Seq<u8>)>,
    pub hops: u8,
    pub apdu: Apdu,
    pub rest: Seq<u8>,
}

impl BacnetMessage {
    pub open spec fn fits(self) -> bool {
        &&& self.function == 4 || self.function == 10 || self.function == 11
        &&& self.origin.len() == if self.function == 4 {
            6int
        } else {
            0
        }
        &&& self.priority < 4
        &&& self.destination matches Some((_, a)) ==> a.len() < 256
        &&& self.source matches Some((_, a)) ==> a.len() < 256
        &&& self.apdu.fits()
        &&& self.len() < 0x1_0000
    }

    pub open spec fn control(self) -> u8 {
        (wire::bit(self.reserved) * 64 + wire::bit(self.destination is Some) * 32 + wire::bit(
            self.other,
        ) * 16 + wire::bit(self.source is Some) * 8 + wire::bit(self.expecting) * 4
            + self.priority) as u8
    }

    pub open spec fn hops_part(self) -> Seq<u8> {
        if self.destination is Some {
            seq![self.hops]
        } else {
            Seq::empty()
        }
    }

    pub open spec fn len(self) -> int {
        6int + self.origin.len() + routed(self.destination).len() + routed(self.source).len()
            + self.hops_part().len() + self.apdu.written().len() + self.rest.len()
    }

    pub open spec fn parts(self) -> Seq<Seq<u8>> {
        seq![
            seq![0x81],
            seq![self.function],
            wire::w16(self.len() as u16),
            self.origin,
            seq![1],
            seq![self.control()],
            routed(self.destination),
            routed(self.source),
            self.hops_part(),
            self.apdu.written(),
            self.rest,
        ]
    }

    /// The message as it is on the wire (ANSI/ASHRAE 135, annex J and clause 6).
    pub open spec fn written(self) -> Seq<u8> {
        wire::laid_out(self.parts())
    }

    /// What is to be read of it.
    pub open spec fn told(self, ctx: Context) -> Fields {
        let keys = map!["app"@ => ValueView::Str("bacnet"@)];
        let structure = map![
            "bvlc_function"@ => ValueView::U64(self.function as u64),
            "npdu_control"@ => ValueView::U64(self.control() as u64),
        ];
        let others = map!["apdu_type"@ => ValueView::U64(self.apdu.kind as u64)];
        let service = ValueView::U64(self.apdu.service as u64);
        let others = wire::with(others, self.apdu.kind <= 3, "service_choice"@, service);
        wire::shown(ctx, keys, structure, others)
    }
}

/// Where the parts of a message stand.
proof fn lemma_bacnet(h: BacnetMessage, payload: Seq<u8>)
    requires
        h.fits(),
    ensures
        ({
            let b = h.written() + payload;
            let p = 6 + h.origin.len() as int;
            let q = p + routed(h.destination).len();
            let s = q + routed(h.source).len();
            let t = s + h.hops_part().len();
            &&& b.len() >= h.len()
            &&& b[0] == 0x81
            &&& b[1] == h.function
            &&& bytes::be16(b, 2) == h.len()
            &&& b[p - 2] == 1
            &&& b[p - 1] == h.control()
            &&& wire::stands(b, p, routed(h.destination))
            &&& wire::stands(b, q, routed(h.source))
            &&& wire::stands(b, t, h.apdu.written())
        }),
{
    let m = h.parts();
    let b = h.written() + payload;
    let o = h.origin.len() as int;
    let p = 6 + o;
    let q = p + routed(h.destination).len();
    let s = q + routed(h.source).len();
    let t = s + h.hops_part().len();
    wire::parts_stand(m, payload);
    assert(m[0].len() == 1);
    assert(wire::offset(m, 1) == 1);
    assert(m[1].len() == 1);
    assert(wire::offset(m, 2) == 2);
    assert(m[2].len() == 2);
    assert(wire::offset(m, 3) == 4);
    assert(m[3] == h.origin);
    assert(wire::offset(m, 4) == 4 + o);
    assert(m[4].len() == 1);
    assert(wire::offset(m, 5) == 5 + o);
    assert(m[5].len() == 1);
    assert(wire::offset(m, 6) == p);
    assert(m[6] == routed(h.destination));
    assert(wire::offset(m, 7) == q);
    assert(m[7] == routed(h.source));
    assert(wire::offset(m, 8) == s);
    assert(m[8] == h.hops_part());
    assert(wire::offset(m, 9) == t);
    assert(m[9] == h.apdu.written());
    assert(wire::offset(m, 10) == t + h.apdu.written().len());
    assert(m[10] == h.rest);
    assert(wire::offset(m, 11) == h.len());
    wire::read_byte(b, 0, 0x81);
    wire::read_byte(b, 1, h.function);
    wire::read16(b, 2, h.len() as u16);
    wire::read_byte(b, 4 + o, 1);
    wire::read_byte(b, 5 + o, h.control());
}

/// The bits of the control byte.
proof fn lemma_control(
    reserved: int,
    destination: int,
    other: int,
    source: int,
    expecting: int,
    priority: int,
)
    requires
        0 <= reserved < 2,
        0 <= destination < 2,
        0 <= other < 2,
        0 <= source < 2,
        0 <= expecting < 2,
        0 <= priority < 4,
    ensures
        ({
            let c = reserved * 64 + destination * 32 + other * 16 + source * 8 + expecting * 4
                + priority;
            0 <= c < 128 && c / 32 % 2 == destination && c / 8 % 2 == source && c / 128 == 0
        }),
{
}

/// A BACnet/IP message is read as it was written.
pub proof fn bacnet_reads_what_was_written(h: BacnetMessage, payload: Seq<u8>, ctx: Context)
    requires
        h.fits(),
    ensures
        BacnetIp.spec_parse(h.written() + payload, ctx) == Ok::<Parsed, ParseError>(
            Parsed { header_len: h.len(), fields: h.told(ctx), hint: Hint::Terminal },
        ),
{
    let b = h.written() + payload;
    let p = 6 + h.origin.len() as int;
    let q = p + routed(h.destination).len();
    let s = q + routed(h.source).len();
    let t = s + h.hops_part().len();
    lemma_bacnet(h, payload);
    let c = h.control();
    wire::bits8(c);
    lemma_control(
        wire::bit(h.reserved),
        wire::bit(h.destination is Some),
        wire::bit(h.other),
        wire::bit(h.source is Some),
        wire::bit(h.expecting),
        h.priority as int,
    );
    lemma_routed(b, p, h.destination);
    lemma_routed(b, q, h.source);
    lemma_apdu(b, t, h.apdu, c);
    let w = bacnet_ip::Walk {
        end: t + h.apdu.written().len(),
        control: Some(c),
        apdu: Some(h.apdu.kind),
        service: if h.apdu.kind <= 3 {
            Some(h.apdu.service)
        } else {
            None
        },
    };
    assert(bacnet_ip::npdu_rest(b, p, c) == Ok::<bacnet_ip::Walk, ParseError>(w));
    assert(bacnet_ip::walk(b) == Ok::<bacnet_ip::Walk, ParseError>(w));
    assert(bacnet_ip::fields(b, w, ctx) =~= h.told(ctx));
}

} // verus!

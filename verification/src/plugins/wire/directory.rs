//! Directories: Kerberos and LDAP, framed in the distinguished encoding of ASN.1.
use vstd::prelude::*;

use crate::bytes::ParseError;
use crate::der;
use crate::layer::{Context, Hint, LayerPlugin, Parsed};
use crate::plugins::kerberos::{self, Kerberos};
use crate::plugins::ldap::{self, Ldap};
use crate::plugins::wire;
use crate::value::{Fields, ValueView};

verus! {

/// A number in so many octets, the uppermost first.
pub open spec fn octets(n: int, width: nat) -> Seq<u8>
    decreases width,
{
    if width == 0 {
        Seq::empty()
    } else {
        octets(n / 0x100, (width - 1) as nat).push((n % 0x100) as u8)
    }
}

/// One more than the largest number of so many octets.
pub open spec fn limit(width: nat) -> int
    decreases width,
{
    if width == 0 {
        1
    } else {
        limit((width - 1) as nat) * 0x100
    }
}

/// A number is read as it was spelled.
pub proof fn numbers_are_read(n: int, width: nat)
    requires
        0 <= n < limit(width),
    ensures
        der::number(octets(n, width)) == n,
        octets(n, width).len() == width,
    decreases width,
{
    if width > 0 {
        let m = (width - 1) as nat;
        numbers_are_read(n / 0x100, m);
        assert(octets(n, width).drop_last() =~= octets(n / 0x100, m));
    }
}

/// A length: one octet, or an octet that says how many octets it takes (X.690, 8.1.3).
pub open spec fn length_octets(n: int, width: nat) -> Seq<u8> {
    if width == 0 {
        seq![n as u8]
    } else {
        seq![(128 + width) as u8] + octets(n, width)
    }
}

/// Whether a length can be spelled so.
pub open spec fn is_length(n: int, width: nat) -> bool {
    0 <= n && if width == 0 {
        n < 128
    } else {
        width <= 8 && n < limit(width) && n <= u64::MAX
    }
}

proof fn lemma_length(b: Seq<u8>, p: int, n: int, width: nat)
    requires
        is_length(n, width),
        wire::stands(b, p, length_octets(n, width)),
    ensures
        der::length_at(b, p) == Ok::<(u64, int), ParseError>((n as u64, p + 1 + width)),
        length_octets(n, width).len() == 1 + width,
{
    let o = length_octets(n, width);
    if width == 0 {
        wire::read_byte(b, p, n as u8);
        wire::bits8(b[p]);
    } else {
        numbers_are_read(n, width);
        let s = b.subrange(p, p + o.len());
        assert(b[p] == s[0] && s[0] == o[0]);
        wire::bits8(b[p]);
        assert(b.subrange(p + 1, p + 1 + width) =~= s.subrange(1, 1int + width));
        assert(o.subrange(1, 1int + width) =~= octets(n, width));
    }
}

/// A tag, a length and so much content.
#[verifier::opaque]
pub open spec fn tlv(tag: u8, width: nat, content: Seq<u8>) -> Seq<u8> {
    seq![tag] + length_octets(content.len() as int, width) + content
}

/// A tag and its content are read as they were written.
pub proof fn tlvs_are_read(b: Seq<u8>, p: int, tag: u8, width: nat, content: Seq<u8>)
    requires
        is_length(content.len() as int, width),
        content.len() <= usize::MAX,
        wire::stands(b, p, tlv(tag, width, content)),
    ensures
        der::tlv_at(b, p) == Ok::<(u8, Seq<u8>, int), ParseError>(
            (tag, content, p + 2 + width + content.len()),
        ),
{
    reveal(tlv);
    let n = content.len() as int;
    let t = tlv(tag, width, content);
    let o = length_octets(n, width);
    let s = b.subrange(p, p + t.len());
    assert(b[p] == s[0] && s[0] == t[0]);
    assert(o.len() == 1 + width) by {
        if width > 0 {
            numbers_are_read(n, width);
        }
    }
    assert(b.subrange(p + 1, p + 1 + o.len()) =~= s.subrange(1, 1int + o.len()));
    assert(t.subrange(1, 1int + o.len()) =~= o);
    lemma_length(b, p + 1, n, width);
    assert(b.subrange(p + 2 + width, p + 2 + width + n) =~= s.subrange(
        2int + width,
        2 + width + n,
    ));
    assert(t.subrange(2int + width, 2 + width + n) =~= content);
}

/// The parts of a Kerberos message: its type is its tag, and its content is left alone.
pub ghost struct KerberosMessage {
    pub kind: u8,
    pub width: nat,
    pub content: Seq<u8>,
}

impl KerberosMessage {
    /// Whether every part has room where it stands.
    pub open spec fn fits(self) -> bool {
        &&& 10 <= self.kind <= 15 || self.kind == 30
        &&& is_length(self.content.len() as int, self.width)
        &&& self.content.len() <= usize::MAX
    }

    pub open spec fn length_part(self) -> Seq<u8> {
        length_octets(self.content.len() as int, self.width)
    }

    pub open spec fn parts(self) -> Seq<Seq<u8>> {
        seq![
            seq![(96 + self.kind) as u8],
            self.length_part(),
            self.content,
        ]
    }

    /// The message as it is on the wire (RFC 4120, 5.10).
    pub open spec fn written(self) -> Seq<u8> {
        wire::laid_out(self.parts())
    }

    /// What is to be read of it.
    pub open spec fn told(self, ctx: Context) -> Fields {
        let keys = map![
            "app"@ => ValueView::Str("kerberos"@),
        ];
        let structure = map![
            "msg_type"@ => ValueView::U64(self.kind as u64),
            "der_length"@ => ValueView::U64(self.content.len() as u64),
        ];
        let others = Map::<Seq<char>, ValueView>::empty();
        wire::shown(ctx, keys, structure, others)
    }
}

/// A Kerberos message is read as it was written.
pub proof fn kerberos_reads_what_was_written(h: KerberosMessage, payload: Seq<u8>, ctx: Context)
    requires
        h.fits(),
    ensures
        Kerberos.spec_parse(h.written() + payload, ctx) == Ok::<Parsed, ParseError>(
            Parsed { header_len: 2 + h.width as int + h.content.len(), fields: h.told(ctx), hint: Hint::Terminal },
        ),
{
    let p = h.parts();
    let b = h.written() + payload;
    wire::parts_stand(p, payload);
    assert(p[0].len() == 1);
    assert(wire::offset(p, 1) == 1);
    assert(p[1] == h.length_part());
    assert(wire::offset(p, 2) == 1 + h.length_part().len());
    assert(p[2] == h.content);
    assert(wire::offset(p, 3) == 1 + h.length_part().len() + h.content.len());
    wire::read_byte(b, 0, (96 + h.kind) as u8);
    assert(wire::stands(b, 1, p[1]));
    assert(wire::stands(b, (1 + h.length_part().len()) as int, p[2]));
    wire::bits8(b[0]);
    lemma_length(b, 1, h.content.len() as int, h.width);
    assert(kerberos::fields(b, h.content.len() as u64, ctx) =~= h.told(ctx));
}

/// The parts of an LDAP message: its id, an operation and what follows it.
pub ghost struct LdapMessage {
    pub width: nat,
    pub id: u64,
    pub id_width: nat,
    /// Whether the operation is a constructed one.
    pub constructed: bool,
    pub operation: u8,
    pub operation_width: nat,
    pub content: Seq<u8>,
    pub controls: Seq<u8>,
}

impl LdapMessage {
    pub open spec fn fits(self) -> bool {
        &&& 0 < self.id_width <= 8
        &&& self.id < limit(self.id_width)
        &&& self.operation < 32
        &&& is_length(self.content.len() as int, self.operation_width)
        &&& is_length(self.body().len() as int, self.width)
        &&& self.written().len() <= usize::MAX
    }

    pub open spec fn id_part(self) -> Seq<u8> {
        tlv(2, 0, octets(self.id as int, self.id_width))
    }

    pub open spec fn tag(self) -> u8 {
        (64 + wire::bit(self.constructed) * 32 + self.operation) as u8
    }

    pub open spec fn operation_part(self) -> Seq<u8> {
        tlv(self.tag(), self.operation_width, self.content)
    }

    pub open spec fn body(self) -> Seq<u8> {
        self.id_part() + self.operation_part() + self.controls
    }

    /// The message as it is on the wire (RFC 4511, 4.1.1).
    pub open spec fn written(self) -> Seq<u8> {
        tlv(0x30, self.width, self.body())
    }

    /// What is to be read of it.
    pub open spec fn told(self, ctx: Context) -> Fields {
        let keys = map!["app"@ => ValueView::Str("ldap"@)];
        let structure = map![
            "message_id"@ => ValueView::U64(self.id),
            "protocol_op"@ => ValueView::U64(self.operation as u64),
        ];
        let dn = ldap::bind_dn(self.content);
        let bound = self.operation == 0 && dn is Some;
        let others = wire::with(
            Map::<Seq<char>, ValueView>::empty(),
            bound,
            "bind_dn"@,
            ValueView::Str(dn->0),
        );
        wire::shown(ctx, keys, structure, others)
    }
}

/// An LDAP message is read as it was written.
pub proof fn ldap_reads_what_was_written(h: LdapMessage, payload: Seq<u8>, ctx: Context)
    requires
        h.fits(),
    ensures
        Ldap.spec_parse(h.written() + payload, ctx) == Ok::<Parsed, ParseError>(
            Parsed {
                header_len: h.written().len() as int,
                fields: h.told(ctx),
                hint: Hint::Terminal,
            },
        ),
{
    let b = h.written() + payload;
    let c = h.body();
    assert(b.subrange(0, 0int + h.written().len()) =~= h.written());
    lemma_tlv_len(0x30, h.width, c);
    tlvs_are_read(b, 0, 0x30, h.width, c);
    lemma_envelope(h);
    let m = ldap::Envelope { message_id: h.id, tag: h.tag(), operation: h.content };
    wire::bits8(h.tag());
    assert(h.tag() / 64 == 1 && h.tag() % 32 == h.operation);
    assert(ldap::fields(m, ctx) =~= h.told(ctx));
}

proof fn lemma_envelope(h: LdapMessage)
    requires
        h.fits(),
    ensures
        ldap::envelope(h.body()) == Ok::<ldap::Envelope, ParseError>(
            ldap::Envelope { message_id: h.id, tag: h.tag(), operation: h.content },
        ),
{
    let c = h.body();
    lemma_tlv_len(0x30, h.width, c);
    let id = octets(h.id as int, h.id_width);
    numbers_are_read(h.id as int, h.id_width);
    lemma_tlv_len(2, 0, id);
    lemma_tlv_len(h.tag(), h.operation_width, h.content);
    let at = h.id_part().len() as int;
    assert(c.subrange(0, 0 + at) =~= h.id_part());
    tlvs_are_read(c, 0, 2, 0, id);
    assert(c.subrange(at, at + h.operation_part().len()) =~= h.operation_part());
    tlvs_are_read(c, at, h.tag(), h.operation_width, h.content);
    wire::bits8(h.tag());
    assert(h.tag() / 64 == 1);
}

proof fn lemma_tlv_len(tag: u8, width: nat, content: Seq<u8>)
    requires
        is_length(content.len() as int, width),
    ensures
        tlv(tag, width, content).len() == 2 + width + content.len(),
{
    reveal(tlv);
    if width > 0 {
        numbers_are_read(content.len() as int, width);
    }
}

/// The name in a bind request is the one behind the version.
pub proof fn ldap_bind_names_are_read(
    version: Seq<u8>,
    name: Seq<char>,
    width: nat,
    rest: Seq<u8>,
)
    requires
        version.len() < 128,
        is_length(vstd::utf8::encode_utf8(name).len() as int, width),
        vstd::utf8::encode_utf8(name).len() <= usize::MAX,
    ensures
        ldap::bind_dn(
            tlv(2, 0, version) + tlv(4, width, vstd::utf8::encode_utf8(name)) + rest,
        ) == Some(name),
{
    let e = vstd::utf8::encode_utf8(name);
    let v = tlv(2, 0, version);
    let c = v + tlv(4, width, e) + rest;
    vstd::utf8::encode_utf8_valid_utf8(name);
    vstd::utf8::encode_utf8_decode_utf8(name);
    lemma_tlv_len(2, 0, version);
    lemma_tlv_len(4, width, e);
    assert(c.subrange(0, 0int + v.len()) =~= v);
    tlvs_are_read(c, 0, 2, 0, version);
    let at = v.len() as int;
    assert(c.subrange(at, at + tlv(4, width, e).len()) =~= tlv(4, width, e));
    tlvs_are_read(c, at, 4, width, e);
}

} // verus!

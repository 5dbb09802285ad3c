//! DNS messages.
use vstd::prelude::*;

use crate::bytes::{self, ParseError};
use crate::layer::{Context, Hint, LayerPlugin, Parsed};
use crate::plugins::dns::{self, Dns};
use crate::plugins::wire;
use crate::text;
use crate::value::{Fields, ValueView};

verus! {

/// A name as its labels, behind their lengths, up to the closing zero.
pub open spec fn spelled(labels: Seq<Seq<u8>>) -> Seq<u8>
    decreases labels.len(),
{
    if labels.len() == 0 {
        seq![0]
    } else {
        seq![labels[0].len() as u8] + labels[0] + spelled(labels.drop_first())
    }
}

/// A label's text: visible ASCII but for the dot, which would look like another label.
pub open spec fn shown(label: Seq<u8>) -> Seq<char> {
    Seq::new(
        label.len(),
        |i: int|
            if 0x21 <= label[i] <= 0x7E && label[i] != 0x2E {
                label[i] as char
            } else {
                '?'
            },
    )
}

/// A name's text after `name`: its labels with dots between them.
pub open spec fn dotted(name: Seq<char>, labels: Seq<Seq<u8>>) -> Seq<char>
    decreases labels.len(),
{
    if labels.len() == 0 {
        name
    } else if name.len() == 0 {
        dotted(shown(labels[0]), labels.drop_first())
    } else {
        dotted(name + seq!['.'] + shown(labels[0]), labels.drop_first())
    }
}

/// Whether a name can stand in a message.
pub open spec fn is_name(labels: Seq<Seq<u8>>) -> bool {
    &&& forall|i: int| 0 <= i < labels.len() ==> 0 < (#[trigger] labels[i]).len() < 64
    &&& dotted(Seq::empty(), labels).len() <= 255
}

proof fn lemma_dotted_grows(name: Seq<char>, labels: Seq<Seq<u8>>)
    ensures
        dotted(name, labels).len() >= name.len(),
    decreases labels.len(),
{
    if labels.len() > 0 {
        if name.len() == 0 {
            lemma_dotted_grows(shown(labels[0]), labels.drop_first());
        } else {
            lemma_dotted_grows(name + seq!['.'] + shown(labels[0]), labels.drop_first());
        }
    }
}

proof fn lemma_spelled(
    labels: Seq<Seq<u8>>,
    name: Seq<char>,
    head: Seq<u8>,
    rest: Seq<u8>,
    jumps: int,
)
    requires
        forall|i: int| 0 <= i < labels.len() ==> 0 < (#[trigger] labels[i]).len() < 64,
        dotted(name, labels).len() <= 255,
        0 <= jumps <= 64,
    ensures
        dns::name_from(head + spelled(labels) + rest, head.len() as int, name, jumps) == Ok::<
            Seq<char>,
            ParseError,
        >(dotted(name, labels)),
        dns::name_size(head + spelled(labels) + rest, head.len() as int) == spelled(labels).len(),
    decreases labels.len(),
{
    let msg = head + spelled(labels) + rest;
    let p = head.len() as int;
    if labels.len() == 0 {
        assert(msg[p] == 0);
    } else {
        let label = labels[0];
        let more = labels.drop_first();
        let first = seq![label.len() as u8] + label;
        assert(spelled(labels) == first + spelled(more));
        assert(head + first + spelled(more) + rest =~= msg);
        assert(msg[p] == first[0]);
        assert(msg.subrange(p + 1, p + 1 + msg[p]) =~= label);
        let n = msg[p];
        assert(n < 64);
        wire::bits8(n);
        assert(n & 0xC0 == 0);
        let longer = if name.len() == 0 {
            shown(label)
        } else {
            name + seq!['.'] + shown(label)
        };
        assert(dns::with_label(name, label) =~= longer);
        lemma_dotted_grows(longer, more);
        assert forall|i: int| 0 <= i < more.len() implies 0 < (#[trigger] more[i]).len() < 64 by {
            assert(more[i] == labels[i + 1]);
        }
        lemma_spelled(more, longer, head + first, rest, jumps);
    }
}

/// A name is read as it was spelled, and takes the bytes that it was spelled with.
pub proof fn names_are_read(labels: Seq<Seq<u8>>, head: Seq<u8>, rest: Seq<u8>)
    requires
        is_name(labels),
    ensures
        dns::name_at(head + spelled(labels) + rest, head.len() as int) == Ok::<
            Seq<char>,
            ParseError,
        >(dotted(Seq::empty(), labels)),
        dns::name_size(head + spelled(labels) + rest, head.len() as int) == spelled(labels).len(),
{
    lemma_spelled(labels, Seq::empty(), head, rest, 0);
}

/// Labels that a pointer follows continue with the name that the pointer leads to, and
/// take the bytes up to the pointer's end.
pub proof fn pointers_are_followed(
    labels: Seq<Seq<u8>>,
    name: Seq<char>,
    head: Seq<u8>,
    target: u16,
    rest: Seq<u8>,
    jumps: int,
)
    requires
        forall|i: int| 0 <= i < labels.len() ==> 0 < (#[trigger] labels[i]).len() < 64,
        dotted(name, labels).len() <= 255,
        target < head.len(),
        target < 0x4000,
        0 <= jumps < 64,
    ensures
        ({
            let labelled = spelled(labels).drop_last();
            let msg = head + labelled + wire::w16((0xC000 + target) as u16) + rest;
            &&& dns::name_from(msg, head.len() as int, name, jumps) == dns::name_from(
                msg,
                target as int,
                dotted(name, labels),
                jumps + 1,
            )
            &&& dns::name_size(msg, head.len() as int) == labelled.len() + 2
        }),
    decreases labels.len(),
{
    let labelled = spelled(labels).drop_last();
    let pointer = wire::w16((0xC000 + target) as u16);
    let msg = head + labelled + pointer + rest;
    let p = head.len() as int;
    if labels.len() == 0 {
        assert(msg[p] == pointer[0] && msg[p + 1] == pointer[1]);
        let n = msg[p];
        wire::bits8(n);
        assert(n == 192 + target / 0x100);
        assert(n & 0xC0 == 0xC0 && n & 0x3F == target / 0x100);
    } else {
        let label = labels[0];
        let more = labels.drop_first();
        let first = seq![label.len() as u8] + label;
        assert(spelled(labels) == first + spelled(more));
        lemma_spelled_ends(more);
        assert(labelled =~= first + spelled(more).drop_last());
        assert(head + first + spelled(more).drop_last() + pointer + rest =~= msg);
        assert(msg[p] == first[0]);
        assert(msg.subrange(p + 1, p + 1 + msg[p]) =~= label);
        let n = msg[p];
        assert(n < 64);
        wire::bits8(n);
        assert(n & 0xC0 == 0);
        let longer = if name.len() == 0 {
            shown(label)
        } else {
            name + seq!['.'] + shown(label)
        };
        assert(dns::with_label(name, label) =~= longer);
        lemma_dotted_grows(longer, more);
        assert forall|i: int| 0 <= i < more.len() implies 0 < (#[trigger] more[i]).len() < 64 by {
            assert(more[i] == labels[i + 1]);
        }
        pointers_are_followed(more, longer, head + first, target, rest, jumps);
    }
}

proof fn lemma_spelled_ends(labels: Seq<Seq<u8>>)
    ensures
        spelled(labels).len() > 0,
    decreases labels.len(),
{
    if labels.len() > 0 {
        lemma_spelled_ends(labels.drop_first());
    }
}

/// A question.
pub ghost struct Asked {
    pub name: Seq<Seq<u8>>,
    pub qtype: u16,
    pub class: u16,
}

/// Questions one after the other.
pub open spec fn asked(list: Seq<Asked>) -> Seq<u8>
    decreases list.len(),
{
    if list.len() == 0 {
        Seq::empty()
    } else {
        spelled(list[0].name) + wire::w16(list[0].qtype) + wire::w16(list[0].class) + asked(
            list.drop_first(),
        )
    }
}

proof fn lemma_asked(list: Seq<Asked>, first: Option<dns::Question>, head: Seq<u8>, rest: Seq<u8>)
    requires
        forall|i: int| 0 <= i < list.len() ==> is_name((#[trigger] list[i]).name),
    ensures
        dns::questions(
            head + asked(list) + rest,
            head.len() as int,
            list.len() as int,
            first,
        ) == Ok::<(int, Option<dns::Question>), ParseError>(
            (
                (head.len() + asked(list).len()) as int,
                if first is Some || list.len() == 0 {
                    first
                } else {
                    Some(
                        dns::Question {
                            name: dotted(Seq::empty(), list[0].name),
                            qtype: list[0].qtype,
                        },
                    )
                },
            ),
        ),
    decreases list.len(),
{
    if list.len() > 0 {
        let msg = head + asked(list) + rest;
        let more = list.drop_first();
        let q = list[0];
        let name = spelled(q.name);
        let tail = wire::w16(q.qtype) + wire::w16(q.class);
        let one = name + tail;
        assert(is_name(list[0].name));
        assert(asked(list) =~= one + asked(more));
        assert(head + one + asked(more) + rest =~= msg);
        assert(head + name + (tail + asked(more) + rest) =~= msg);
        names_are_read(q.name, head, tail + asked(more) + rest);
        let p = (head.len() + name.len()) as int;
        assert(msg.subrange(p, p + 2) =~= wire::w16(q.qtype));
        wire::read16(msg, p, q.qtype);
        assert forall|i: int| 0 <= i < more.len() implies is_name((#[trigger] more[i]).name) by {
            assert(more[i] == list[i + 1]);
        }
        lemma_asked(
            more,
            if first is None {
                Some(dns::Question { name: dotted(Seq::empty(), q.name), qtype: q.qtype })
            } else {
                first
            },
            head + one,
            rest,
        );
    } else {
        assert(head + asked(list) + rest =~= head + rest);
    }
}

/// What an answer holds.
pub ghost enum Answer {
    /// The four numbers of an IPv4 address.
    A(Seq<u8>),
    /// The sixteen bytes of an IPv6 address.
    Aaaa(Seq<u8>),
    /// The name that an alias stands for.
    Alias(Seq<Seq<u8>>),
    /// The name that a pointer record leads to.
    Pointer(Seq<Seq<u8>>),
    /// Something else, of the type given.
    Other(u16, Seq<u8>),
}

impl Answer {
    pub open spec fn fits(self) -> bool {
        match self {
            Answer::A(a) => a.len() == 4,
            Answer::Aaaa(a) => a.len() == 16,
            Answer::Alias(n) => is_name(n) && spelled(n).len() < 0x1_0000,
            Answer::Pointer(n) => is_name(n) && spelled(n).len() < 0x1_0000,
            Answer::Other(t, d) => t != 1 && t != 5 && t != 12 && t != 28 && d.len() < 0x1_0000,
        }
    }

    pub open spec fn rtype(self) -> u16 {
        match self {
            Answer::A(_) => 1,
            Answer::Aaaa(_) => 28,
            Answer::Alias(_) => 5,
            Answer::Pointer(_) => 12,
            Answer::Other(t, _) => t,
        }
    }

    pub open spec fn data(self) -> Seq<u8> {
        match self {
            Answer::A(a) => a,
            Answer::Aaaa(a) => a,
            Answer::Alias(n) => spelled(n),
            Answer::Pointer(n) => spelled(n),
            Answer::Other(_, d) => d,
        }
    }

    /// An address in its usual notation, a name with its dots, or the type's number.
    pub open spec fn rendered(self) -> Seq<char> {
        match self {
            Answer::A(a) => decimal(a[0]) + seq!['.'] + decimal(a[1]) + seq!['.'] + decimal(a[2])
                + seq!['.'] + decimal(a[3]),
            Answer::Aaaa(a) => grouped(a, 8),
            Answer::Alias(n) => dotted(Seq::empty(), n),
            Answer::Pointer(n) => dotted(Seq::empty(), n),
            Answer::Other(t, _) => "type"@ + text::numeral(t as int, 10),
        }
    }
}

pub open spec fn decimal(n: u8) -> Seq<char> {
    text::numeral(n as int, 10)
}

/// The first `n` pairs of bytes in hexadecimal, with colons between them.
pub open spec fn grouped(a: Seq<u8>, n: int) -> Seq<char>
    decreases n,
{
    if n <= 1 {
        text::numeral(a[0] * 256 + a[1], 16)
    } else {
        grouped(a, n - 1) + seq![':'] + text::numeral(a[2 * n - 2] * 256 + a[2 * n - 1], 16)
    }
}

/// The number that a numeral spells.
pub open spec fn value_of(digits: Seq<char>, base: int) -> int
    decreases digits.len(),
{
    if digits.len() == 0 {
        0
    } else {
        value_of(digits.drop_last(), base) * base + digit_value(digits.last())
    }
}

/// The value of a digit, letters standing for ten and more.
pub open spec fn digit_value(c: char) -> int {
    if '0' <= c <= '9' {
        c as int - 48
    } else {
        c as int - 97 + 10
    }
}

/// A numeral spells its number, without leading zeros.
pub proof fn numerals_spell_their_number(n: int, base: int)
    requires
        2 <= base <= 16,
        0 <= n,
    ensures
        value_of(text::numeral(n, base), base) == n,
        text::numeral(n, base).len() > 1 ==> text::numeral(n, base)[0] != '0',
        text::numeral(n, base).len() > 0,
    decreases n,
{
    let s = text::numeral(n, base);
    reveal_with_fuel(value_of, 2);
    if n < base {
        assert(s.drop_last() =~= Seq::empty());
        assert(s.last() == text::digit(n));
    } else {
        let q = n / base;
        let r = n % base;
        assert(0 < q < n && n == q * base + r && 0 <= r < base) by (nonlinear_arith)
            requires
                2 <= base <= n,
                q == n / base,
                r == n % base,
        ;
        numerals_spell_their_number(q, base);
        let t = text::numeral(q, base);
        assert(s.drop_last() =~= t);
        assert(s[0] == t[0]);
        if t.len() == 1 {
            assert(t.drop_last() =~= Seq::empty());
            assert(value_of(t, base) == digit_value(t[0]));
        }
    }
}

proof fn lemma_rendered(a: Answer, msg: Seq<u8>, at: int)
    requires
        a.fits(),
        wire::stands(msg, at, a.data()),
    ensures
        dns::rendered(msg, a.rtype(), at, a.data()) == a.rendered(),
{
    match a {
        Answer::A(d) => {
            reveal_with_fuel(dns::dotted, 5);
            assert(dns::dotted(d, 4) =~= a.rendered());
        },
        Answer::Aaaa(d) => {
            lemma_grouped(d, 8);
        },
        Answer::Alias(n) => {
            let head = msg.take(at);
            let rest = msg.skip(at + a.data().len());
            assert(head + spelled(n) + rest =~= msg);
            names_are_read(n, head, rest);
        },
        Answer::Pointer(n) => {
            let head = msg.take(at);
            let rest = msg.skip(at + a.data().len());
            assert(head + spelled(n) + rest =~= msg);
            names_are_read(n, head, rest);
        },
        Answer::Other(t, _) => {},
    }
}

proof fn lemma_grouped(d: Seq<u8>, n: int)
    requires
        1 <= n <= 8,
        d.len() == 16,
    ensures
        dns::grouped(d, n) == grouped(d, n),
    decreases n,
{
    if n > 1 {
        lemma_grouped(d, n - 1);
        assert(dns::grouped(d, n) =~= grouped(d, n));
    }
}

/// A resource record.
pub ghost struct Record {
    pub name: Seq<Seq<u8>>,
    pub class: u16,
    pub ttl: u32,
    pub answer: Answer,
}

impl Record {
    pub open spec fn fits(self) -> bool {
        is_name(self.name) && self.answer.fits()
    }

    pub open spec fn written(self) -> Seq<u8> {
        spelled(self.name) + wire::w16(self.answer.rtype()) + wire::w16(self.class) + wire::w32(
            self.ttl,
        ) + wire::w16(self.answer.data().len() as u16) + self.answer.data()
    }
}

/// Records one after the other.
pub open spec fn recorded(list: Seq<Record>) -> Seq<u8>
    decreases list.len(),
{
    if list.len() == 0 {
        Seq::empty()
    } else {
        list[0].written() + recorded(list.drop_first())
    }
}

/// The texts of some records.
pub open spec fn texts(list: Seq<Record>) -> Seq<ValueView> {
    Seq::new(list.len(), |i: int| ValueView::Str(list[i].answer.rendered()))
}

proof fn lemma_record(r: Record, head: Seq<u8>, rest: Seq<u8>)
    requires
        r.fits(),
    ensures
        ({
            let msg = head + r.written() + rest;
            let p = (head.len() + spelled(r.name).len()) as int;
            let len = r.answer.data().len() as int;
            &&& dns::name_at(msg, head.len() as int) is Ok
            &&& dns::name_size(msg, head.len() as int) == spelled(r.name).len()
            &&& r.written().len() == spelled(r.name).len() + 10 + len
            &&& bytes::be16(msg, p) == r.answer.rtype()
            &&& bytes::be16(msg, p + 8) == len
            &&& msg.subrange(p + 10, p + 10 + len) == r.answer.data()
            &&& dns::rendered(msg, r.answer.rtype(), p + 10, r.answer.data())
                == r.answer.rendered()
        }),
{
    let name = spelled(r.name);
    let data = r.answer.data();
    let parts = seq![
        head,
        name,
        wire::w16(r.answer.rtype()),
        wire::w16(r.class),
        wire::w32(r.ttl),
        wire::w16(data.len() as u16),
        data,
    ];
    let msg = head + r.written() + rest;
    let p = (head.len() + name.len()) as int;
    reveal_with_fuel(wire::laid_out, 8);
    reveal_with_fuel(wire::offset, 8);
    assert(data.len() < 0x1_0000);
    let q1 = seq![head];
    let q2 = q1.push(name);
    let q3 = q2.push(wire::w16(r.answer.rtype()));
    let q4 = q3.push(wire::w16(r.class));
    let q5 = q4.push(wire::w32(r.ttl));
    let q6 = q5.push(wire::w16(data.len() as u16));
    assert(parts =~= q6.push(data));
    assert(parts.drop_last() =~= q6 && q6.drop_last() =~= q5 && q5.drop_last() =~= q4
        && q4.drop_last() =~= q3 && q3.drop_last() =~= q2 && q2.drop_last() =~= q1
        && q1.drop_last() =~= Seq::<Seq<u8>>::empty());
    assert(wire::laid_out(parts) + rest =~= msg);
    wire::parts_stand(parts, rest);
    assert(parts[0] == head && parts[1] == name && parts[2].len() == 2 && parts[3].len() == 2
        && parts[4].len() == 4 && parts[5].len() == 2 && parts[6] == data);
    wire::read16(msg, p, r.answer.rtype());
    wire::read16(msg, p + 8, data.len() as u16);
    assert(wire::stands(msg, p + 10, parts[6]));
    let tail = msg.skip(p);
    assert(head + name + tail =~= msg);
    names_are_read(r.name, head, tail);
    lemma_rendered(r.answer, msg, p + 10);
}

proof fn lemma_recorded(list: Seq<Record>, before: Seq<ValueView>, head: Seq<u8>, rest: Seq<u8>)
    requires
        forall|i: int| 0 <= i < list.len() ==> (#[trigger] list[i]).fits(),
    ensures
        dns::records(
            head + recorded(list) + rest,
            head.len() as int,
            list.len() as int,
            before,
        ) == Ok::<(int, Seq<ValueView>), ParseError>(
            ((head.len() + recorded(list).len()) as int, before + texts(list)),
        ),
    decreases list.len(),
{
    if list.len() > 0 {
        let msg = head + recorded(list) + rest;
        let more = list.drop_first();
        let r = list[0];
        let one = r.written();
        assert(r.fits());
        assert(head + one + recorded(more) + rest =~= msg);
        assert(head + one + (recorded(more) + rest) =~= msg);
        lemma_record(r, head, recorded(more) + rest);
        assert forall|i: int| 0 <= i < more.len() implies (#[trigger] more[i]).fits() by {
            assert(more[i] == list[i + 1]);
        }
        let next = before.push(ValueView::Str(r.answer.rendered()));
        lemma_recorded(more, next, head + one, rest);
        assert(next + texts(more) =~= before + texts(list)) by {
            assert forall|i: int| 0 <= i < more.len() implies texts(more)[i] == texts(list)[i
                + 1] by {
                assert(more[i] == list[i + 1]);
            }
        }
    } else {
        assert(head + recorded(list) + rest =~= head + rest);
        assert(before + texts(list) =~= before);
    }
}

/// The parts of a DNS message.
pub ghost struct DnsMessage {
    pub id: u16,
    pub response: bool,
    pub opcode: u8,
    /// The flags between the opcode and the response code.
    pub other: u8,
    pub rcode: u8,
    pub questions: Seq<Asked>,
    pub answers: Seq<Record>,
    pub authorities: Seq<Record>,
    pub additionals: Seq<Record>,
}

impl DnsMessage {
    pub open spec fn fits(self) -> bool {
        &&& self.opcode < 16
        &&& self.other < 128
        &&& self.rcode < 16
        &&& self.questions.len() <= 128
        &&& self.answers.len() <= 128
        &&& self.authorities.len() <= 128
        &&& self.additionals.len() <= 128
        &&& forall|i: int|
            0 <= i < self.questions.len() ==> is_name((#[trigger] self.questions[i]).name)
        &&& forall|i: int| 0 <= i < self.answers.len() ==> (#[trigger] self.answers[i]).fits()
        &&& forall|i: int|
            0 <= i < self.authorities.len() ==> (#[trigger] self.authorities[i]).fits()
        &&& forall|i: int|
            0 <= i < self.additionals.len() ==> (#[trigger] self.additionals[i]).fits()
    }

    pub open spec fn flags(self) -> u16 {
        (wire::bit(self.response) * 0x8000 + self.opcode * 0x800 + self.other * 0x10
            + self.rcode) as u16
    }

    pub open spec fn parts(self) -> Seq<Seq<u8>> {
        seq![
            wire::w16(self.id),
            wire::w16(self.flags()),
            wire::w16(self.questions.len() as u16),
            wire::w16(self.answers.len() as u16),
            wire::w16(self.authorities.len() as u16),
            wire::w16(self.additionals.len() as u16),
            asked(self.questions),
            recorded(self.answers),
            recorded(self.authorities),
            recorded(self.additionals),
        ]
    }

    /// The message as it is on the wire (RFC 1035, 4.1).
    pub open spec fn written(self) -> Seq<u8> {
        wire::laid_out(self.parts())
    }

    /// What is to be read of it.
    pub open spec fn told(self, ctx: Context) -> Fields {
        let keys = map!["app"@ => ValueView::Str("dns"@)];
        let structure = map![
            "id"@ => ValueView::U64(self.id as u64),
            "is_response"@ => ValueView::Bool(self.response),
            "opcode"@ => ValueView::U64(self.opcode as u64),
            "rcode"@ => ValueView::U64(self.rcode as u64),
        ];
        let any = self.questions.len() > 0;
        let name = dotted(Seq::empty(), self.questions[0].name);
        let structure = wire::with(structure, any, "qname"@, ValueView::Str(name));
        let qtype = ValueView::U64(self.questions[0].qtype as u64);
        let structure = wire::with(structure, any, "qtype"@, qtype);
        let others = map![
            "answers"@ => ValueView::List(texts(self.answers)),
            "qdcount"@ => ValueView::U64(self.questions.len() as u64),
            "ancount"@ => ValueView::U64(self.answers.len() as u64),
            "nscount"@ => ValueView::U64(self.authorities.len() as u64),
            "arcount"@ => ValueView::U64(self.additionals.len() as u64),
        ];
        wire::shown(ctx, keys, structure, others)
    }
}

/// The flags of a message, whatever else it holds: the response bit is the uppermost,
/// the opcode the four bits below it, the response code the four lowest.
proof fn lemma_flags(h: DnsMessage)
    requires
        h.opcode < 16,
        h.other < 128,
        h.rcode < 16,
    ensures
        h.flags() & 0x8000 != 0 <==> h.response,
        (h.flags() >> 11) & 0xF == h.opcode,
        h.flags() & 0xF == h.rcode,
{
    wire::bits16(h.flags());
    lemma_bits(wire::bit(h.response), h.opcode as int, h.other as int, h.rcode as int);
}

proof fn lemma_bits(response: int, opcode: int, other: int, rcode: int)
    requires
        0 <= response < 2,
        0 <= opcode < 16,
        0 <= other < 128,
        0 <= rcode < 16,
    ensures
        ({
            let w = response * 0x8000 + opcode * 0x800 + other * 0x10 + rcode;
            &&& 0 <= w < 0x1_0000
            &&& w / 0x8000 == response
            &&& w / 0x800 % 16 == opcode
            &&& w % 16 == rcode
        }),
{
    let w = response * 0x8000 + opcode * 0x800 + other * 0x10 + rcode;
    assert(w / 0x800 == response * 16 + opcode);
}

/// Where the sections of a message stand.
spec fn starts(h: DnsMessage) -> (int, int, int, int) {
    let a = 12 + asked(h.questions).len() as int;
    let n = a + recorded(h.answers).len() as int;
    let r = n + recorded(h.authorities).len() as int;
    (a, n, r, r + recorded(h.additionals).len() as int)
}

/// A message whose header has been read: its sections are where they were laid out.
spec fn is_laid_out(b: Seq<u8>, h: DnsMessage) -> bool {
    let (a, n, r, end) = starts(h);
    &&& b.len() >= end
    &&& bytes::be16(b, 0) == h.id
    &&& bytes::be16(b, 2) == h.flags()
    &&& bytes::be16(b, 4) == h.questions.len()
    &&& bytes::be16(b, 6) == h.answers.len()
    &&& bytes::be16(b, 8) == h.authorities.len()
    &&& bytes::be16(b, 10) == h.additionals.len()
    &&& wire::stands(b, 12, asked(h.questions))
    &&& wire::stands(b, a, recorded(h.answers))
    &&& wire::stands(b, n, recorded(h.authorities))
    &&& wire::stands(b, r, recorded(h.additionals))
}

proof fn lemma_laid_out(h: DnsMessage, rest: Seq<u8>)
    requires
        h.fits(),
    ensures
        is_laid_out(h.written() + rest, h),
        h.written().len() == starts(h).3,
{
    let p = h.parts();
    let b = h.written() + rest;
    let (a, n, r, end) = starts(h);
    wire::parts_stand(p, rest);
    assert(p[0].len() == 2 && p[1].len() == 2 && p[2].len() == 2 && p[3].len() == 2 && p[4].len()
        == 2 && p[5].len() == 2);
    assert(wire::offset(p, 1) == 2);
    assert(wire::offset(p, 2) == 4);
    assert(wire::offset(p, 3) == 6);
    assert(wire::offset(p, 4) == 8);
    assert(wire::offset(p, 5) == 10);
    assert(wire::offset(p, 6) == 12);
    assert(p[6] == asked(h.questions));
    assert(p[7] == recorded(h.answers));
    assert(p[8] == recorded(h.authorities));
    assert(p[9] == recorded(h.additionals));
    assert(wire::offset(p, 7) == a);
    assert(wire::offset(p, 8) == n);
    assert(wire::offset(p, 9) == r);
    assert(wire::offset(p, 10) == end);
    wire::read16(b, 0, h.id);
    wire::read16(b, 2, h.flags());
    wire::read16(b, 4, h.questions.len() as u16);
    wire::read16(b, 6, h.answers.len() as u16);
    wire::read16(b, 8, h.authorities.len() as u16);
    wire::read16(b, 10, h.additionals.len() as u16);
}

/// The records that stand somewhere are read there.
proof fn lemma_section(b: Seq<u8>, at: int, list: Seq<Record>)
    requires
        forall|i: int| 0 <= i < list.len() ==> (#[trigger] list[i]).fits(),
        wire::stands(b, at, recorded(list)),
    ensures
        dns::records(b, at, list.len() as int, Seq::empty()) == Ok::<
            (int, Seq<ValueView>),
            ParseError,
        >((at + recorded(list).len() as int, texts(list))),
{
    let head = b.take(at);
    let rest = b.skip(at + recorded(list).len());
    assert(head + recorded(list) + rest =~= b);
    lemma_recorded(list, Seq::empty(), head, rest);
    assert(Seq::<ValueView>::empty() + texts(list) =~= texts(list));
}

/// What the sections of a message say.
spec fn sections_of(h: DnsMessage) -> dns::Sections {
    dns::Sections {
        end: starts(h).3,
        question: if h.questions.len() == 0 {
            None
        } else {
            Some(
                dns::Question {
                    name: dotted(Seq::empty(), h.questions[0].name),
                    qtype: h.questions[0].qtype,
                },
            )
        },
        answers: texts(h.answers),
    }
}

proof fn lemma_sections(h: DnsMessage, b: Seq<u8>)
    requires
        h.fits(),
        is_laid_out(b, h),
    ensures
        dns::sections(b) == Ok::<dns::Sections, ParseError>(sections_of(h)),
{
    let (a, n, r, end) = starts(h);
    let q = asked(h.questions);
    assert(b.take(12) + q + b.skip(a) =~= b);
    lemma_asked(h.questions, None, b.take(12), b.skip(a));
    lemma_section(b, a, h.answers);
    lemma_section(b, n, h.authorities);
    lemma_section(b, r, h.additionals);
}

/// A DNS message in a datagram is read as it was written.
pub proof fn dns_reads_what_was_written(h: DnsMessage, payload: Seq<u8>, ctx: Context)
    requires
        h.fits(),
        !ctx.follows("tcp"@),
    ensures
        Dns.spec_parse(h.written() + payload, ctx) == Ok::<Parsed, ParseError>(
            Parsed {
                header_len: h.written().len() as int,
                fields: h.told(ctx),
                hint: Hint::Terminal,
            },
        ),
{
    let b = h.written() + payload;
    lemma_laid_out(h, payload);
    lemma_sections(h, b);
    lemma_flags(h);
    assert(dns::fields(b, dns::sections(b)->Ok_0, ctx) =~= h.told(ctx));
}

/// Over TCP a message is read behind its length, and what follows it is left alone.
pub proof fn dns_over_tcp_reads_what_was_written(h: DnsMessage, payload: Seq<u8>, ctx: Context)
    requires
        h.fits(),
        h.written().len() < 0x1_0000,
        ctx.follows("tcp"@),
    ensures
        Dns.spec_parse(wire::w16(h.written().len() as u16) + h.written() + payload, ctx) == Ok::<
            Parsed,
            ParseError,
        >(
            Parsed {
                header_len: 2 + h.written().len() as int,
                fields: h.told(ctx),
                hint: Hint::Terminal,
            },
        ),
{
    let n = h.written().len() as u16;
    let b = wire::w16(n) + h.written() + payload;
    assert(b.subrange(0, 2) =~= wire::w16(n));
    wire::read16(b, 0, n);
    let msg = b.subrange(2, 2 + n as int);
    let none = Seq::<u8>::empty();
    assert(msg =~= h.written() + none);
    lemma_laid_out(h, none);
    lemma_sections(h, msg);
    lemma_flags(h);
    assert(dns::fields(msg, dns::sections(msg)->Ok_0, ctx) =~= h.told(ctx));
}

/// What the first four bytes of a message say.
pub open spec fn told_by_flags(b: Seq<u8>) -> Fields {
    let flags = b[2] * 256 + b[3];
    map![
        "app"@ => ValueView::Str("dns"@),
        "id"@ => ValueView::U64((b[0] * 256 + b[1]) as u64),
        "is_response"@ => ValueView::Bool(flags >= 0x8000),
        "opcode"@ => ValueView::U64((flags / 0x800 % 16) as u64),
        "rcode"@ => ValueView::U64((flags % 16) as u64),
    ]
}

/// Whether these are fields of the question, the answers or the counts.
pub open spec fn of_sections(f: Fields) -> bool {
    f.dom().subset_of(
        set![
            "qname"@,
            "qtype"@,
            "answers"@,
            "qdcount"@,
            "ancount"@,
            "nscount"@,
            "arcount"@,
        ],
    )
}

/// The flags of any message that is read, whatever its names look like: its response
/// code is the remainder of the flags by sixteen.
pub proof fn dns_flags_are_read(b: Seq<u8>, ctx: Context)
    requires
        !ctx.follows("tcp"@),
        Dns.spec_parse(b, ctx) is Ok,
        ctx.structural(),
    ensures
        exists|rest: Fields| #[trigger]
            of_sections(rest) && Dns.spec_parse(b, ctx)->Ok_0.fields == told_by_flags(
                b,
            ).union_prefer_right(rest),
{
    let flags = bytes::be16(b, 2);
    wire::bits16(flags);
    let s = dns::sections(b)->Ok_0;
    let none = Map::<Seq<char>, ValueView>::empty();
    let asked = wire::with(
        wire::with(none, s.question is Some, "qname"@, ValueView::Str(s.question->0.name)),
        s.question is Some,
        "qtype"@,
        ValueView::U64(s.question->0.qtype as u64),
    );
    let counted = asked.insert("answers"@, ValueView::List(s.answers)).insert(
        "qdcount"@,
        ValueView::U64(bytes::be16(b, 4) as u64),
    ).insert("ancount"@, ValueView::U64(bytes::be16(b, 6) as u64)).insert(
        "nscount"@,
        ValueView::U64(bytes::be16(b, 8) as u64),
    ).insert("arcount"@, ValueView::U64(bytes::be16(b, 10) as u64));
    let rest = if ctx.full() {
        counted
    } else {
        asked
    };
    assert(flags & 0x8000 != 0 <==> flags >= 0x8000);
    assert(of_sections(rest));
    assert(dns::fields(b, s, ctx) =~= told_by_flags(b).union_prefer_right(rest));
}

} // verus!

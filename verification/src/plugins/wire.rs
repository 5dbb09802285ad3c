//! What is written is read: a header put together from its parts, as its protocol lays
//! it out on the wire, is read back into those parts, whatever follows it; and packets
//! are of one conversation exactly if their endpoints are the same.
use vstd::prelude::*;

use crate::flows::key;
use crate::identity::{Identity, KeyField};
use crate::layer::Context;
use crate::value::{Fields, ValueView};

pub mod building;
pub mod directory;
pub mod discovery;
pub mod export;
pub mod internet;
pub mod leases;
pub mod lines;
pub mod link;
pub mod mobile;
pub mod naming;
pub mod numbers;
pub mod radio;
pub mod retained;
pub mod routing;
pub mod service;
pub mod tunnel;
pub mod web;

verus! {

/// The upper byte of a 16-bit number.
pub open spec fn hi(n: u16) -> u8 {
    (n / 0x100) as u8
}

/// The lower byte of a 16-bit number.
pub open spec fn lo(n: u16) -> u8 {
    (n % 0x100) as u8
}

/// A 16-bit number, upper byte first.
pub open spec fn w16(n: u16) -> Seq<u8> {
    seq![hi(n), lo(n)]
}

/// A 32-bit number, upper byte first.
pub open spec fn w32(n: u32) -> Seq<u8> {
    seq![
        (n / 0x100_0000) as u8,
        (n / 0x1_0000 % 0x100) as u8,
        (n / 0x100 % 0x100) as u8,
        (n % 0x100) as u8,
    ]
}

/// A 24-bit number, upper byte first.
pub open spec fn w24(n: u32) -> Seq<u8> {
    seq![(n / 0x1_0000 % 0x100) as u8, (n / 0x100 % 0x100) as u8, (n % 0x100) as u8]
}

/// A 64-bit number, upper byte first.
pub open spec fn w64(n: u64) -> Seq<u8> {
    w32((n / 0x1_0000_0000) as u32) + w32((n % 0x1_0000_0000) as u32)
}

/// A 16-bit number, lower byte first.
pub open spec fn l16(n: u16) -> Seq<u8> {
    seq![lo(n), hi(n)]
}

/// A 32-bit number, lower byte first.
pub open spec fn l32(n: u32) -> Seq<u8> {
    seq![
        (n % 0x100) as u8,
        (n / 0x100 % 0x100) as u8,
        (n / 0x1_0000 % 0x100) as u8,
        (n / 0x100_0000) as u8,
    ]
}

/// One for a flag that is set.
pub open spec fn bit(flag: bool) -> int {
    if flag {
        1
    } else {
        0
    }
}

/// Whether `part` stands in `b` from `i` on.
pub open spec fn stands(b: Seq<u8>, i: int, part: Seq<u8>) -> bool {
    0 <= i && i + part.len() <= b.len() && b.subrange(i, i + part.len()) == part
}

/// The parts of a message, one after the other.
pub open spec fn laid_out(parts: Seq<Seq<u8>>) -> Seq<u8>
    decreases parts.len(),
{
    if parts.len() == 0 {
        Seq::empty()
    } else {
        laid_out(parts.drop_last()) + parts.last()
    }
}

/// Where part `k` begins.
pub open spec fn offset(parts: Seq<Seq<u8>>, k: int) -> int
    decreases k,
{
    if k <= 0 {
        0
    } else {
        offset(parts, k - 1) + parts[k - 1].len()
    }
}

proof fn lemma_laid_out(parts: Seq<Seq<u8>>)
    ensures
        laid_out(parts).len() == offset(parts, parts.len() as int),
    decreases parts.len(),
{
    if parts.len() > 0 {
        lemma_laid_out(parts.drop_last());
        lemma_offset(parts, parts.drop_last(), parts.len() - 1);
    }
}

proof fn lemma_offset(a: Seq<Seq<u8>>, b: Seq<Seq<u8>>, k: int)
    requires
        k <= a.len(),
        k <= b.len(),
        forall|i: int| 0 <= i < k ==> a[i] == b[i],
    ensures
        offset(a, k) == offset(b, k),
        offset(a, k) >= 0,
    decreases k,
{
    if k > 0 {
        lemma_offset(a, b, k - 1);
    }
}

/// Every part stands where it was laid out, whatever follows.
pub proof fn parts_stand(parts: Seq<Seq<u8>>, rest: Seq<u8>)
    ensures
        forall|k: int|
            0 <= k < parts.len() ==> stands(
                laid_out(parts) + rest,
                offset(parts, k),
                #[trigger] parts[k],
            ),
        laid_out(parts).len() == offset(parts, parts.len() as int),
    decreases parts.len(),
{
    lemma_laid_out(parts);
    if parts.len() > 0 {
        let init = parts.drop_last();
        let n = init.len() as int;
        lemma_laid_out(init);
        parts_stand(init, parts.last() + rest);
        assert(laid_out(init) + (parts.last() + rest) =~= laid_out(parts) + rest);
        lemma_offset(parts, init, n);
        assert forall|k: int| 0 <= k < parts.len() implies stands(
            laid_out(parts) + rest,
            offset(parts, k),
            #[trigger] parts[k],
        ) by {
            lemma_offset(parts, init, k);
            if k < n {
                assert(init[k] == parts[k]);
            } else {
                let b = laid_out(parts) + rest;
                assert(b.subrange(offset(parts, k), offset(parts, k) + parts[k].len())
                    =~= parts[k]);
            }
        }
    }
}

/// Where all parts are equally long, they begin at multiples of their length.
pub proof fn even_offsets(parts: Seq<Seq<u8>>, n: int, k: int)
    requires
        0 <= k <= parts.len(),
        forall|i: int| 0 <= i < parts.len() ==> (#[trigger] parts[i]).len() == n,
    ensures
        offset(parts, k) == k * n,
    decreases k,
{
    if k > 0 {
        even_offsets(parts, n, k - 1);
        assert(parts[k - 1].len() == n);
        assert(k * n == (k - 1) * n + n) by (nonlinear_arith);
    } else {
        assert(k * n == 0) by (nonlinear_arith)
            requires
                k == 0,
        ;
    }
}

/// What stands in a message can be read byte by byte, and as a number.
pub proof fn read_byte(b: Seq<u8>, i: int, n: u8)
    requires
        stands(b, i, seq![n]),
    ensures
        i < b.len(),
        b[i] == n,
{
    assert(b.subrange(i, i + 1)[0] == seq![n][0]);
}

pub proof fn read16(b: Seq<u8>, i: int, n: u16)
    requires
        stands(b, i, w16(n)),
    ensures
        i + 2 <= b.len(),
        crate::bytes::be16(b, i) == n,
{
    let s = b.subrange(i, i + 2);
    assert(s[0] == w16(n)[0] && s[1] == w16(n)[1]);
    assert(b[i] == s[0] && b[i + 1] == s[1]);
}

pub proof fn read24(b: Seq<u8>, i: int, n: u32)
    requires
        n < 0x100_0000,
        stands(b, i, w24(n)),
    ensures
        i + 3 <= b.len(),
        crate::bytes::be24(b, i) == n,
{
    let s = b.subrange(i, i + 3);
    assert(s[0] == w24(n)[0] && s[1] == w24(n)[1] && s[2] == w24(n)[2]);
    assert(b[i] == s[0] && b[i + 1] == s[1] && b[i + 2] == s[2]);
    assert(n / 0x100 / 0x100 == n / 0x1_0000);
}

pub proof fn read32(b: Seq<u8>, i: int, n: u32)
    requires
        stands(b, i, w32(n)),
    ensures
        i + 4 <= b.len(),
        crate::bytes::be32(b, i) == n,
{
    let s = b.subrange(i, i + 4);
    assert(s[0] == w32(n)[0] && s[1] == w32(n)[1] && s[2] == w32(n)[2] && s[3] == w32(n)[3]);
    assert(b[i] == s[0] && b[i + 1] == s[1] && b[i + 2] == s[2] && b[i + 3] == s[3]);
    assert(n / 0x100 / 0x100 == n / 0x1_0000);
    assert(n / 0x1_0000 / 0x100 == n / 0x100_0000);
}

pub proof fn read64(b: Seq<u8>, i: int, n: u64)
    requires
        stands(b, i, w64(n)),
    ensures
        i + 8 <= b.len(),
        crate::bytes::be64(b, i) == n,
{
    let upper = (n / 0x1_0000_0000) as u32;
    let lower = (n % 0x1_0000_0000) as u32;
    let s = b.subrange(i, i + 8);
    assert(b.subrange(i, i + 4) =~= s.subrange(0, 4));
    assert(w64(n).subrange(0, 4) =~= w32(upper));
    assert(b.subrange(i + 4, i + 8) =~= s.subrange(4, 8));
    assert(w64(n).subrange(4, 8) =~= w32(lower));
    read32(b, i, upper);
    read32(b, i + 4, lower);
}

pub proof fn read16_le(b: Seq<u8>, i: int, n: u16)
    requires
        stands(b, i, l16(n)),
    ensures
        i + 2 <= b.len(),
        crate::bytes::le16(b, i) == n,
{
    let s = b.subrange(i, i + 2);
    assert(s[0] == l16(n)[0] && s[1] == l16(n)[1]);
    assert(b[i] == s[0] && b[i + 1] == s[1]);
}

pub proof fn read32_le(b: Seq<u8>, i: int, n: u32)
    requires
        stands(b, i, l32(n)),
    ensures
        i + 4 <= b.len(),
        crate::bytes::le32(b, i) == n,
{
    let s = b.subrange(i, i + 4);
    assert(s[0] == l32(n)[0] && s[1] == l32(n)[1] && s[2] == l32(n)[2] && s[3] == l32(n)[3]);
    assert(b[i] == s[0] && b[i + 1] == s[1] && b[i + 2] == s[2] && b[i + 3] == s[3]);
    assert(n / 0x100 / 0x100 == n / 0x1_0000);
    assert(n / 0x1_0000 / 0x100 == n / 0x100_0000);
}

/// The bit fields of a byte, as arithmetic.
pub proof fn bits8(x: u8)
    ensures
        x >> 2 == x / 4,
        x >> 4 == x / 16,
        x >> 5 == x / 32,
        x >> 6 == x / 64,
        x & 0x03 == x % 4,
        x & 0x07 == x % 8,
        x & 0x0F == x % 16,
        x & 0x1F == x % 32,
        x & 0x3F == x % 64,
        x & 0x7F == x % 128,
        (x & 0xE0) >> 5 == x / 32,
        x & 0xE0 == (x / 32) * 32,
        x & 0xC0 == (x / 64) * 64,
        x & 0x80 != 0 <==> x / 128 == 1,
        x & 0x40 != 0 <==> (x / 64) % 2 == 1,
        x & 0x20 != 0 <==> (x / 32) % 2 == 1,
        x & 0x10 != 0 <==> (x / 16) % 2 == 1,
        x & 0x08 != 0 <==> (x / 8) % 2 == 1,
        x & 0x04 != 0 <==> (x / 4) % 2 == 1,
        x & 0x02 != 0 <==> (x / 2) % 2 == 1,
        x & 0x01 != 0 <==> x % 2 == 1,
{
    assert(x >> 2 == x / 4 && x >> 4 == x / 16 && x >> 5 == x / 32 && x >> 6 == x / 64 && x & 0x03
        == x % 4 && x & 0x07 == x % 8 && x & 0x0F == x % 16 && x & 0x1F == x % 32 && x & 0x3F == x
        % 64 && x & 0x7F == x % 128 && (x & 0xE0) >> 5 == x / 32) by (bit_vector);
    assert(x & 0xE0 == (x / 32) * 32 && x & 0xC0 == (x / 64) * 64) by (bit_vector);
    assert((x & 0x80 != 0 <==> x / 128 == 1) && (x & 0x40 != 0 <==> (x / 64) % 2 == 1) && (x & 0x20
        != 0 <==> (x / 32) % 2 == 1) && (x & 0x10 != 0 <==> (x / 16) % 2 == 1) && (x & 0x08 != 0
        <==> (x / 8) % 2 == 1) && (x & 0x04 != 0 <==> (x / 4) % 2 == 1) && (x & 0x02 != 0 <==> (x
        / 2) % 2 == 1) && (x & 0x01 != 0 <==> x % 2 == 1)) by (bit_vector);
}

/// The bit fields of a 16-bit word, as arithmetic.
pub proof fn bits16(x: u16)
    ensures
        x >> 3 == x / 8,
        x >> 4 == x / 16,
        x >> 9 == x / 0x200,
        x >> 10 == x / 0x400,
        x >> 11 == x / 0x800,
        x >> 12 == x / 0x1000,
        x >> 13 == x / 0x2000,
        x & 0x0007 == x % 8,
        x & 0xF == x % 16,
        x & 0x01FF == x % 0x200,
        x & 0x03FF == x % 0x400,
        x & 0x0FFF == x % 0x1000,
        x & 0x1FFF == x % 0x2000,
        (x >> 11) & 0xF == x / 0x800 % 16,
        (x >> 10) & 0x1F == x / 0x400 % 32,
        x & 0x8000 != 0 <==> x / 0x8000 == 1,
        x & 0x2000 != 0 <==> x / 0x2000 % 2 == 1,
        x & 0x1000 != 0 <==> x / 0x1000 % 2 == 1,
        x & 0x0400 != 0 <==> x / 0x400 % 2 == 1,
        x & 0x0001 != 0 <==> x % 2 == 1,
{
    assert(x >> 3 == x / 8 && x >> 4 == x / 16 && x >> 9 == x / 0x200 && x >> 10 == x / 0x400 && x
        >> 11 == x / 0x800 && x >> 12 == x / 0x1000 && x >> 13 == x / 0x2000 && x & 0x0007 == x % 8
        && x & 0xF == x % 16 && x & 0x01FF == x % 0x200 && x & 0x03FF == x % 0x400 && x & 0x0FFF
        == x % 0x1000 && x & 0x1FFF == x % 0x2000) by (bit_vector);
    assert((x >> 11) & 0xF == x / 0x800 % 16 && (x >> 10) & 0x1F == x / 0x400 % 32) by (bit_vector);
    assert((x & 0x8000 != 0 <==> x / 0x8000 == 1) && (x & 0x2000 != 0 <==> x / 0x2000 % 2 == 1) && (x
        & 0x1000 != 0 <==> x / 0x1000 % 2 == 1) && (x & 0x0400 != 0 <==> x / 0x400 % 2 == 1) && (x
        & 0x0001 != 0 <==> x % 2 == 1)) by (bit_vector);
}

/// The bit fields of a 32-bit word, as arithmetic.
pub proof fn bits32(x: u32)
    ensures
        x >> 28 == x / 0x1000_0000,
        (x >> 20) & 0xFF == x / 0x10_0000 % 0x100,
        (x >> 16) & 0x0F == x / 0x1_0000 % 16,
        x & 0xF_FFFF == x % 0x10_0000,
        x & 0x7FFF_FFFF == x % 0x8000_0000,
        x & 0x8000_0000 != 0 <==> x / 0x8000_0000 == 1,
{
    assert(x >> 28 == x / 0x1000_0000 && (x >> 20) & 0xFF == x / 0x10_0000 % 0x100 && (x >> 16)
        & 0x0F == x / 0x1_0000 % 16 && x & 0xF_FFFF == x % 0x10_0000 && x & 0x7FFF_FFFF == x
        % 0x8000_0000) by (bit_vector);
    assert(x & 0x8000_0000 != 0 <==> x / 0x8000_0000 == 1) by (bit_vector);
}

/// The fields that a depth shows: those of the keys, those of the structure and all
/// others, as far as they are asked for.
pub open spec fn shown(ctx: Context, keys: Fields, structure: Fields, others: Fields) -> Fields {
    let f = if ctx.keys() {
        keys
    } else {
        Map::empty()
    };
    let f = if ctx.structural() {
        f.union_prefer_right(structure)
    } else {
        f
    };
    if ctx.full() {
        f.union_prefer_right(others)
    } else {
        f
    }
}

/// `f`, and on a condition one field more.
pub open spec fn with(f: Fields, wanted: bool, name: Seq<char>, v: ValueView) -> Fields {
    if wanted {
        f.insert(name, v)
    } else {
        f
    }
}

/// Whether two packets are of one conversation.
pub open spec fn one_conversation(identity: Identity, f: Fields, g: Fields) -> bool {
    key::key_of(identity, f)->Ok_0.0 == key::key_of(identity, g)->Ok_0.0
}

/// Whether a protocol's conversations are told apart by one key component.
pub open spec fn is_keyed_by(identity: Option<Identity>, kf: KeyField) -> bool {
    identity matches Some(i) && i.policy is EndpointSort && i.key == seq![kf]
}

/// A protocol with a pair of endpoints puts packets into one conversation exactly if
/// they are between the same two, in either direction; and the two directions differ.
pub proof fn pairs_tell_conversations(identity: Identity, kf: KeyField, f: Fields, g: Fields)
    requires
        is_keyed_by(Some(identity), kf),
        kf.b is Some,
        f.contains_key(kf.a@) && f.contains_key(kf.b->0@),
        g.contains_key(kf.a@) && g.contains_key(kf.b->0@),
        key::fits(f[kf.a@]) && key::fits(f[kf.b->0@]),
        key::fits(g[kf.a@]) && key::fits(g[kf.b->0@]),
    ensures
        key::key_of(identity, f) is Ok && key::key_of(identity, g) is Ok,
        ({
            let (fa, fb) = (f[kf.a@], f[kf.b->0@]);
            let (ga, gb) = (g[kf.a@], g[kf.b->0@]);
            &&& one_conversation(identity, f, g) <==> (fa == ga && fb == gb) || (fa == gb && fb
                == ga)
            &&& fa == gb && fb == ga && fa != fb ==> key::key_of(identity, f)->Ok_0.1
                == key::key_of(identity, g)->Ok_0.1.flipped()
            &&& fa == ga && fb == gb ==> key::key_of(identity, f)->Ok_0.1 == key::key_of(
                identity,
                g,
            )->Ok_0.1
        }),
{
    reveal_with_fuel(key::sides, 2);
    let (fa, fb) = (f[kf.a@], f[kf.b->0@]);
    let (ga, gb) = (g[kf.a@], g[kf.b->0@]);
    let none = Seq::<u8>::empty();
    assert(identity.key[0] == kf);
    assert(none + key::encoding(fa) =~= key::encoding(fa));
    assert(none + key::encoding(fb) =~= key::encoding(fb));
    assert(none + key::encoding(ga) =~= key::encoding(ga));
    assert(none + key::encoding(gb) =~= key::encoding(gb));
    key::keys_are_injective(identity, f, g);
    key::lex_le_is_a_total_order(key::encoding(fa), key::encoding(fb));
    key::lex_le_is_a_total_order(key::encoding(ga), key::encoding(gb));
    if key::encoding(fa) == key::encoding(ga) {
        key::encoding_is_injective(fa, ga);
    }
    if key::encoding(fb) == key::encoding(gb) {
        key::encoding_is_injective(fb, gb);
    }
    if key::encoding(fa) == key::encoding(gb) {
        key::encoding_is_injective(fa, gb);
    }
    if key::encoding(fb) == key::encoding(ga) {
        key::encoding_is_injective(fb, ga);
    }
    if key::encoding(fa) == key::encoding(fb) {
        key::encoding_is_injective(fa, fb);
    }
}

/// A protocol with one qualifier puts packets into one conversation exactly if they
/// have the same.
pub proof fn qualifiers_tell_conversations(identity: Identity, kf: KeyField, f: Fields, g: Fields)
    requires
        is_keyed_by(Some(identity), kf),
        kf.b is None,
        f.contains_key(kf.a@),
        g.contains_key(kf.a@),
        key::fits(f[kf.a@]),
        key::fits(g[kf.a@]),
    ensures
        key::key_of(identity, f) is Ok && key::key_of(identity, g) is Ok,
        one_conversation(identity, f, g) <==> f[kf.a@] == g[kf.a@],
        key::key_of(identity, f)->Ok_0.1 == key::key_of(identity, g)->Ok_0.1,
{
    reveal_with_fuel(key::sides, 2);
    let none = Seq::<u8>::empty();
    let fa = f[kf.a@];
    let ga = g[kf.a@];
    assert(identity.key[0] == kf);
    assert(none + key::encoding(fa) =~= key::encoding(fa));
    assert(none + key::encoding(ga) =~= key::encoding(ga));
    key::keys_are_injective(identity, f, g);
    key::lex_le_is_a_total_order(none, none);
    if key::encoding(fa) == key::encoding(ga) {
        key::encoding_is_injective(fa, ga);
    }
}

/// A typed value in a list: an option, an attribute or an element.
pub ghost struct Item {
    pub kind: int,
    pub value: Seq<u8>,
}

/// Whether an item is of a kind and, where a length is asked for, of that length.
pub open spec fn is_kind(item: Item, kind: int, len: Option<int>) -> bool {
    item.kind == kind && (len matches Some(n) ==> item.value.len() == n)
}

/// The value of the last item of a kind.
pub open spec fn latest(list: Seq<Item>, kind: int, len: Option<int>) -> Option<Seq<u8>>
    decreases list.len(),
{
    if list.len() == 0 {
        None
    } else if latest(list.drop_first(), kind, len) is Some {
        latest(list.drop_first(), kind, len)
    } else if is_kind(list[0], kind, len) {
        Some(list[0].value)
    } else {
        None
    }
}

/// The value of the first item of a kind.
pub open spec fn earliest(list: Seq<Item>, kind: int, len: Option<int>) -> Option<Seq<u8>>
    decreases list.len(),
{
    if list.len() == 0 {
        None
    } else if is_kind(list[0], kind, len) {
        Some(list[0].value)
    } else {
        earliest(list.drop_first(), kind, len)
    }
}

/// The text of bytes that may hold anything: visible ASCII as it is and, where it is
/// wanted, the blank; all else as a question mark.
pub open spec fn legible(data: Seq<u8>, blank: bool) -> Seq<char> {
    Seq::new(
        data.len(),
        |i: int|
            if 0x21 <= data[i] <= 0x7E || (blank && data[i] == 0x20) {
                data[i] as char
            } else {
                '?'
            },
    )
}

} // verus!

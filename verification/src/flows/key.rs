//! Flow keys: a layer's key fields become one canonical, direction-free byte
//! string and the packet's direction. Uniform for every protocol.
use vstd::prelude::*;

use crate::identity::{
    self, Canonicalize, FlowKey, Identity, KeyError, KeyField, KeyPolicy, PacketDirection,
    StreamIdentity,
};
use crate::value::{self, FieldMap, FieldName, Fields, Value, ValueView};

verus! {

// One tag byte per type keeps the encodings of different types apart.
pub const TAG_BYTES: u8 = 0;

pub const TAG_U64: u8 = 1;

pub const TAG_I64: u8 = 2;

pub const TAG_BOOL: u8 = 3;

pub const TAG_STR: u8 = 4;

pub const TAG_LIST: u8 = 5;

/// The most bytes of a payload, or elements of a list, that an encoding holds.
pub const MAX_LEN: usize = 0xFFFF;

pub open spec fn be16(n: int) -> Seq<u8> {
    seq![(n / 0x100) as u8, (n % 0x100) as u8]
}

pub open spec fn be64(n: int) -> Seq<u8> {
    seq![
        (n / 0x100_0000_0000_0000) as u8,
        (n / 0x1_0000_0000_0000 % 0x100) as u8,
        (n / 0x100_0000_0000 % 0x100) as u8,
        (n / 0x1_0000_0000 % 0x100) as u8,
        (n / 0x100_0000 % 0x100) as u8,
        (n / 0x1_0000 % 0x100) as u8,
        (n / 0x100 % 0x100) as u8,
        (n % 0x100) as u8,
    ]
}

/// The two's complement of a signed number.
pub open spec fn unsigned(n: i64) -> int {
    if n < 0 {
        n + 0x1_0000_0000_0000_0000
    } else {
        n as int
    }
}

/// How many of `n` bytes or elements an encoding holds.
pub open spec fn kept(n: nat) -> int {
    if n > MAX_LEN {
        MAX_LEN as int
    } else {
        n as int
    }
}

/// A tagged payload behind its length.
pub open spec fn prefixed(tag: u8, payload: Seq<u8>) -> Seq<u8> {
    seq![tag] + be16(kept(payload.len())) + payload.take(kept(payload.len()))
}

/// A value's encoding: self-delimiting, and different for values of different
/// types.
pub open spec fn encoding(v: ValueView) -> Seq<u8>
    decreases v, 0int,
{
    match v {
        ValueView::Bytes(b) => prefixed(TAG_BYTES, b),
        ValueView::U64(n) => seq![TAG_U64] + be64(n as int),
        ValueView::I64(n) => seq![TAG_I64] + be64(unsigned(n)),
        ValueView::Bool(b) => seq![
            TAG_BOOL,
            if b {
                1
            } else {
                0
            },
        ],
        ValueView::Str(s) => prefixed(TAG_STR, vstd::utf8::encode_utf8(s)),
        ValueView::List(l) => seq![TAG_LIST] + be16(kept(l.len())) + encodings(l, kept(l.len())),
    }
}

/// The encodings of the first `n` values.
pub open spec fn encodings(l: Seq<ValueView>, n: int) -> Seq<u8>
    decreases l, n,
{
    if n <= 0 || n > l.len() {
        Seq::empty()
    } else {
        encodings(l, n - 1) + encoding(l[n - 1])
    }
}

/// Lexicographic order of byte strings.
pub open spec fn lex_le(a: Seq<u8>, b: Seq<u8>) -> bool
    decreases a.len(),
{
    if a.len() == 0 {
        true
    } else if b.len() == 0 {
        false
    } else if a[0] != b[0] {
        a[0] < b[0]
    } else {
        lex_le(a.drop_first(), b.drop_first())
    }
}

/// The parts of a key: what both directions share, and the two endpoints.
#[verifier::ext_equal]
pub struct Sides {
    pub shared: Seq<u8>,
    pub a: Seq<u8>,
    pub b: Seq<u8>,
}

/// `s` with one more key component.
pub open spec fn with_component(s: Sides, kf: KeyField, fields: Fields) -> Result<Sides, KeyError> {
    if !fields.contains_key(kf.a@) {
        Err(KeyError::MissingField(kf.a))
    } else {
        match kf.b {
            None => Ok(Sides { shared: s.shared + encoding(fields[kf.a@]), ..s }),
            Some(b) => if !fields.contains_key(b@) {
                Err(KeyError::MissingField(b))
            } else {
                Ok(
                    Sides {
                        a: s.a + encoding(fields[kf.a@]),
                        b: s.b + encoding(fields[b@]),
                        ..s
                    },
                )
            },
        }
    }
}

/// The parts of the first `n` key components.
pub open spec fn sides(key: Seq<KeyField>, n: int, fields: Fields) -> Result<Sides, KeyError>
    decreases n,
{
    if n <= 0 {
        Ok(Sides { shared: Seq::empty(), a: Seq::empty(), b: Seq::empty() })
    } else {
        match sides(key, n - 1, fields) {
            Err(e) => Err(e),
            Ok(s) => with_component(s, key[n - 1], fields),
        }
    }
}

/// The smaller endpoint comes first and is A; equal endpoints talk from A to B.
pub open spec fn canonical(s: Sides) -> (Seq<u8>, PacketDirection) {
    if lex_le(s.a, s.b) {
        (s.shared + s.a + s.b, PacketDirection::AtoB)
    } else {
        (s.shared + s.b + s.a, PacketDirection::BtoA)
    }
}

/// The key and direction of a layer with these fields.
pub open spec fn key_of(identity: Identity, fields: Fields) -> Result<
    (Seq<u8>, PacketDirection),
    KeyError,
> {
    match identity.policy {
        KeyPolicy::Custom(rule) => rule(fields),
        KeyPolicy::EndpointSort => match sides(
            identity.key,
            identity.key.len() as int,
            fields,
        ) {
            Err(e) => Err(e),
            Ok(s) => Ok(canonical(s)),
        },
    }
}

pub fn append(out: &mut Vec<u8>, bytes: &[u8])
    ensures
        final(out)@ == old(out)@ + bytes@,
{
    out.extend_from_slice(bytes);
    assert(out@ =~= old(out)@ + bytes@);
}

fn push_be16(out: &mut Vec<u8>, n: u16)
    ensures
        final(out)@ == old(out)@ + be16(n as int),
{
    out.push((n / 0x100) as u8);
    out.push((n % 0x100) as u8);
    assert(out@ =~= old(out)@ + be16(n as int));
}

fn push_be64(out: &mut Vec<u8>, n: u64)
    ensures
        final(out)@ == old(out)@ + be64(n as int),
{
    out.push((n / 0x100_0000_0000_0000) as u8);
    out.push((n / 0x1_0000_0000_0000 % 0x100) as u8);
    out.push((n / 0x100_0000_0000 % 0x100) as u8);
    out.push((n / 0x1_0000_0000 % 0x100) as u8);
    out.push((n / 0x100_0000 % 0x100) as u8);
    out.push((n / 0x1_0000 % 0x100) as u8);
    out.push((n / 0x100 % 0x100) as u8);
    out.push((n % 0x100) as u8);
    assert(out@ =~= old(out)@ + be64(n as int));
}

fn encode_len_prefixed(tag: u8, payload: &[u8], out: &mut Vec<u8>)
    ensures
        final(out)@ == old(out)@ + prefixed(tag, payload@),
{
    let n: usize = payload.len();
    let len: usize = if n > MAX_LEN {
        MAX_LEN
    } else {
        n
    };
    out.push(tag);
    push_be16(out, len as u16);
    let held = vstd::slice::slice_subrange(payload, 0, len);
    append(out, held);
    assert(held@ =~= payload@.take(kept(payload@.len())));
    assert(out@ =~= old(out)@ + prefixed(tag, payload@));
}

/// Appends a value's encoding.
pub fn encode_value(v: &Value, out: &mut Vec<u8>)
    ensures
        final(out)@ == old(out)@ + encoding(v@),
    decreases v,
{
    match v {
        Value::Bytes(b) => encode_len_prefixed(TAG_BYTES, b.as_slice(), out),
        Value::U64(n) => {
            out.push(TAG_U64);
            push_be64(out, *n);
            assert(out@ =~= old(out)@ + encoding(v@));
        },
        Value::I64(n) => {
            out.push(TAG_I64);
            let bits: u64 = if *n < 0 {
                (*n as i128 + 0x1_0000_0000_0000_0000) as u64
            } else {
                *n as u64
            };
            push_be64(out, bits);
            assert(out@ =~= old(out)@ + encoding(v@));
        },
        Value::Bool(b) => {
            out.push(TAG_BOOL);
            out.push(if *b {
                1
            } else {
                0
            });
            assert(out@ =~= old(out)@ + encoding(v@));
        },
        Value::Str(s) => encode_len_prefixed(TAG_STR, s.as_str().as_bytes(), out),
        Value::List(l) => {
            let n: usize = l.len();
            let count: usize = if n > MAX_LEN {
                MAX_LEN
            } else {
                n
            };
            let ghost views = value::values_view(l@);
            proof {
                value::lemma_list_view(*l);
            }
            out.push(TAG_LIST);
            push_be16(out, count as u16);
            let ghost head = out@;
            assert(head =~= old(out)@ + (seq![TAG_LIST] + be16(count as int)));
            let mut i: usize = 0;
            assert(out@ =~= head + encodings(views, 0));
            while i < count
                invariant
                    count <= n == l@.len(),
                    i <= count,
                    v == Value::List(*l),
                    views == value::values_view(l@),
                    out@ == head + encodings(views, i as int),
                decreases count - i,
            {
                let e = &l[i];
                assert(decreases_to!(*v => v->List_0));
                assert(decreases_to!(v->List_0 => v->List_0@));
                assert(decreases_to!(v->List_0@ => v->List_0@[i as int]));
                encode_value(e, out);
                i = i + 1;
                assert(out@ =~= head + encodings(views, i as int));
            }
            assert(out@ =~= old(out)@ + encoding(v@));
        },
    }
}

/// A value's encoding, alone.
pub fn value_encoding(v: &Value) -> (r: Vec<u8>)
    ensures
        r@ == encoding(v@),
{
    let mut out: Vec<u8> = Vec::new();
    encode_value(v, &mut out);
    assert(out@ =~= encoding(v@));
    out
}

/// Whether `a` is at most `b`, lexicographically.
pub fn at_most(a: &[u8], b: &[u8]) -> (r: bool)
    ensures
        r == lex_le(a@, b@),
{
    let n: usize = a.len();
    let m: usize = b.len();
    let mut i: usize = 0;
    assert(a@.skip(0) =~= a@);
    assert(b@.skip(0) =~= b@);
    while i < n && i < m
        invariant
            n == a@.len(),
            m == b@.len(),
            i <= n,
            i <= m,
            lex_le(a@, b@) == lex_le(a@.skip(i as int), b@.skip(i as int)),
        decreases n - i,
    {
        if a[i] != b[i] {
            return a[i] < b[i];
        }
        assert(a@.skip(i as int).drop_first() =~= a@.skip(i + 1));
        assert(b@.skip(i as int).drop_first() =~= b@.skip(i + 1));
        i = i + 1;
    }
    i == n
}

fn required<'a>(fields: &'a FieldMap, name: FieldName) -> (r: Result<&'a Value, KeyError>)
    ensures
        match r {
            Ok(v) => fields@.contains_key(name@) && v@ == fields@[name@],
            Err(e) => !fields@.contains_key(name@) && e == KeyError::MissingField(name),
        },
{
    match fields.get(name) {
        Some(v) => Ok(v),
        None => Err(KeyError::MissingField(name)),
    }
}

/// The canonical key and the direction of a layer with these fields. A key
/// field that the layer lacks is reported by name.
pub fn flow_key(identity: &StreamIdentity, fields: &FieldMap) -> (r: Result<
    (FlowKey, PacketDirection),
    KeyError,
>)
    ensures
        identity::key_outcome(r) == key_of(identity@, fields@),
{
    match identity.canonicalize {
        Canonicalize::Custom(rule) => rule.key(fields),
        Canonicalize::EndpointSort => {
            let key = identity.key;
            let n: usize = key.len();
            let mut shared: Vec<u8> = Vec::new();
            let mut side_a: Vec<u8> = Vec::new();
            let mut side_b: Vec<u8> = Vec::new();
            let ghost mut s = Sides { shared: shared@, a: side_a@, b: side_b@ };
            assert(s =~= Sides { shared: Seq::empty(), a: Seq::empty(), b: Seq::empty() });
            let mut i: usize = 0;
            while i < n
                invariant
                    n == key@.len(),
                    i <= n,
                    key@ == identity@.key,
                    identity@.policy is EndpointSort,
                    s == (Sides { shared: shared@, a: side_a@, b: side_b@ }),
                    sides(key@, i as int, fields@) == Ok::<Sides, KeyError>(s),
                decreases n - i,
            {
                let kf = key[i];
                let va = match required(fields, kf.a) {
                    Ok(v) => v,
                    Err(e) => {
                        proof {
                            lemma_sides_fail(key@, i + 1, n as int, fields@);
                        }
                        return Err(e);
                    },
                };
                match kf.b {
                    None => {
                        encode_value(va, &mut shared);
                    },
                    Some(b) => {
                        let vb = match required(fields, b) {
                            Ok(v) => v,
                            Err(e) => {
                                proof {
                                    lemma_sides_fail(key@, i + 1, n as int, fields@);
                                }
                                return Err(e);
                            },
                        };
                        encode_value(va, &mut side_a);
                        encode_value(vb, &mut side_b);
                    },
                }
                i = i + 1;
                proof {
                    s = Sides { shared: shared@, a: side_a@, b: side_b@ };
                }
            }
            let direction = if at_most(side_a.as_slice(), side_b.as_slice()) {
                PacketDirection::AtoB
            } else {
                PacketDirection::BtoA
            };
            let mut encoded = shared;
            match direction {
                PacketDirection::AtoB => {
                    append(&mut encoded, side_a.as_slice());
                    append(&mut encoded, side_b.as_slice());
                },
                PacketDirection::BtoA => {
                    append(&mut encoded, side_b.as_slice());
                    append(&mut encoded, side_a.as_slice());
                },
            }
            Ok((FlowKey::from_bytes(encoded.as_slice()), direction))
        },
    }
}

/// A component that fails makes the whole key fail in the same way.
proof fn lemma_sides_fail(key: Seq<KeyField>, i: int, n: int, fields: Fields)
    requires
        0 < i <= n,
        sides(key, i, fields) is Err,
    ensures
        sides(key, n, fields) == sides(key, i, fields),
    decreases n,
{
    if n > i {
        lemma_sides_fail(key, i, n - 1, fields);
    }
}

/// Lexicographic order is total, and only equal strings are mutually at most
/// each other.
pub proof fn lex_le_is_a_total_order(a: Seq<u8>, b: Seq<u8>)
    ensures
        lex_le(a, b) || lex_le(b, a),
        lex_le(a, b) && lex_le(b, a) <==> a == b,
    decreases a.len(),
{
    if a.len() > 0 && b.len() > 0 {
        if a[0] == b[0] {
            lex_le_is_a_total_order(a.drop_first(), b.drop_first());
            if a.drop_first() == b.drop_first() {
                assert(a =~= seq![a[0]] + a.drop_first());
                assert(b =~= seq![b[0]] + b.drop_first());
            }
        }
    } else if a.len() == 0 && b.len() == 0 {
        assert(a =~= b);
    }
}

/// Lexicographic order is transitive.
pub proof fn lex_le_is_transitive(a: Seq<u8>, b: Seq<u8>, c: Seq<u8>)
    requires
        lex_le(a, b),
        lex_le(b, c),
    ensures
        lex_le(a, c),
    decreases a.len(),
{
    if a.len() > 0 && b.len() > 0 && c.len() > 0 && a[0] == b[0] && b[0] == c[0] {
        lex_le_is_transitive(a.drop_first(), b.drop_first(), c.drop_first());
    }
}

/// `g` is `f` with every endpoint pair exchanged.
pub open spec fn exchanged(key: Seq<KeyField>, f: Fields, g: Fields) -> bool {
    forall|i: int|
        0 <= i < key.len() ==> match (#[trigger] key[i]).b {
            None => g.contains_key(key[i].a@) && g[key[i].a@] == f[key[i].a@],
            Some(b) => g.contains_key(key[i].a@) && g.contains_key(b@) && g[key[i].a@] == f[b@]
                && g[b@] == f[key[i].a@],
        }
}

proof fn lemma_exchanged_sides(key: Seq<KeyField>, n: int, f: Fields, g: Fields)
    requires
        0 <= n <= key.len(),
        exchanged(key, f, g),
        sides(key, n, f) is Ok,
    ensures
        sides(key, n, g) is Ok,
        sides(key, n, g)->Ok_0.shared == sides(key, n, f)->Ok_0.shared,
        sides(key, n, g)->Ok_0.a == sides(key, n, f)->Ok_0.b,
        sides(key, n, g)->Ok_0.b == sides(key, n, f)->Ok_0.a,
    decreases n,
{
    if n > 0 {
        lemma_exchanged_sides(key, n - 1, f, g);
        assert(key[n - 1] == key[n - 1]);
    }
}

/// A packet and its reply have one key. Their directions are opposite, unless
/// the endpoints are equal: then both go from A to B.
pub proof fn replies_share_the_key(identity: Identity, f: Fields, g: Fields)
    requires
        identity.policy is EndpointSort,
        key_of(identity, f) is Ok,
        exchanged(identity.key, f, g),
    ensures
        key_of(identity, g) is Ok,
        key_of(identity, g)->Ok_0.0 == key_of(identity, f)->Ok_0.0,
        ({
            let s = sides(identity.key, identity.key.len() as int, f)->Ok_0;
            if s.a == s.b {
                key_of(identity, f)->Ok_0.1 is AtoB && key_of(identity, g)->Ok_0.1 is AtoB
            } else {
                key_of(identity, g)->Ok_0.1 == key_of(identity, f)->Ok_0.1.flipped()
            }
        }),
{
    let n = identity.key.len() as int;
    lemma_exchanged_sides(identity.key, n, f, g);
    let s = sides(identity.key, n, f)->Ok_0;
    lex_le_is_a_total_order(s.a, s.b);
}

proof fn lemma_be16(n: int, m: int)
    requires
        0 <= n <= MAX_LEN,
        0 <= m <= MAX_LEN,
        be16(n) == be16(m),
    ensures
        n == m,
{
    assert(be16(n)[0] == be16(m)[0] && be16(n)[1] == be16(m)[1]);
}

proof fn lemma_be64(n: int, m: int)
    requires
        0 <= n <= u64::MAX,
        0 <= m <= u64::MAX,
        be64(n) == be64(m),
    ensures
        n == m,
{
    assert(be64(n)[0] == be64(m)[0] && be64(n)[1] == be64(m)[1] && be64(n)[2] == be64(m)[2]
        && be64(n)[3] == be64(m)[3] && be64(n)[4] == be64(m)[4] && be64(n)[5] == be64(m)[5]
        && be64(n)[6] == be64(m)[6] && be64(n)[7] == be64(m)[7]);
    lemma_octets(n);
    lemma_octets(m);
}

proof fn lemma_octets(n: int)
    requires
        0 <= n <= u64::MAX,
    ensures
        n == be64(n)[0] * 0x100_0000_0000_0000 + be64(n)[1] * 0x1_0000_0000_0000 + be64(n)[2]
            * 0x100_0000_0000 + be64(n)[3] * 0x1_0000_0000 + be64(n)[4] * 0x100_0000 + be64(n)[5]
            * 0x1_0000 + be64(n)[6] * 0x100 + be64(n)[7],
{
    let a = n / 0x100;
    let b = a / 0x100;
    let c = b / 0x100;
    let d = c / 0x100;
    let e = d / 0x100;
    let f = e / 0x100;
    let g = f / 0x100;
    assert(b == n / 0x1_0000);
    assert(c == n / 0x100_0000);
    assert(d == n / 0x1_0000_0000);
    assert(e == n / 0x100_0000_0000);
    assert(f == n / 0x1_0000_0000_0000);
    assert(g == n / 0x100_0000_0000_0000);
}

proof fn lemma_split(p: Seq<u8>, x: Seq<u8>, q: Seq<u8>, y: Seq<u8>)
    requires
        p + x == q + y,
        p.len() == q.len(),
    ensures
        p == q,
        x == y,
{
    assert(p =~= (p + x).take(p.len() as int));
    assert(q =~= (q + y).take(q.len() as int));
    assert(x =~= (p + x).skip(p.len() as int));
    assert(y =~= (q + y).skip(q.len() as int));
}

proof fn lemma_prefixed(tag: u8, p: Seq<u8>, x: Seq<u8>, q: Seq<u8>, y: Seq<u8>)
    requires
        prefixed(tag, p) + x == prefixed(tag, q) + y,
    ensures
        prefixed(tag, p) == prefixed(tag, q),
        p.take(kept(p.len())) == q.take(kept(q.len())),
        x == y,
{
    let hp = seq![tag] + be16(kept(p.len()));
    let hq = seq![tag] + be16(kept(q.len()));
    assert(prefixed(tag, p) + x =~= hp + (p.take(kept(p.len())) + x));
    assert(prefixed(tag, q) + y =~= hq + (q.take(kept(q.len())) + y));
    lemma_split(hp, p.take(kept(p.len())) + x, hq, q.take(kept(q.len())) + y);
    lemma_split(seq![tag], be16(kept(p.len())), seq![tag], be16(kept(q.len())));
    lemma_be16(kept(p.len()), kept(q.len()));
    lemma_split(p.take(kept(p.len())), x, q.take(kept(q.len())), y);
}

/// No encoding is a proper beginning of another: behind equal bytes the same
/// value ends at the same place.
pub proof fn encodings_do_not_overlap(v: ValueView, x: Seq<u8>, w: ValueView, y: Seq<u8>)
    requires
        encoding(v) + x == encoding(w) + y,
    ensures
        encoding(v) == encoding(w),
        x == y,
    decreases v, 0int,
{
    assert((encoding(v) + x)[0] == encoding(v)[0]);
    assert((encoding(w) + y)[0] == encoding(w)[0]);
    match (v, w) {
        (ValueView::Bytes(p), ValueView::Bytes(q)) => lemma_prefixed(TAG_BYTES, p, x, q, y),
        (ValueView::Str(p), ValueView::Str(q)) => lemma_prefixed(
            TAG_STR,
            vstd::utf8::encode_utf8(p),
            x,
            vstd::utf8::encode_utf8(q),
            y,
        ),
        (ValueView::List(l), ValueView::List(m)) => {
            let n = kept(l.len());
            let k = kept(m.len());
            let hl = seq![TAG_LIST] + be16(n);
            let hm = seq![TAG_LIST] + be16(k);
            assert(encoding(v) + x =~= hl + (encodings(l, n) + x));
            assert(encoding(w) + y =~= hm + (encodings(m, k) + y));
            lemma_split(hl, encodings(l, n) + x, hm, encodings(m, k) + y);
            lemma_split(seq![TAG_LIST], be16(n), seq![TAG_LIST], be16(k));
            lemma_be16(n, k);
            lemma_runs(l, x, m, y, n);
        },
        _ => {
            assert(encoding(v).len() == encoding(w).len());
            lemma_split(encoding(v), x, encoding(w), y);
        },
    }
}

proof fn lemma_runs(l: Seq<ValueView>, x: Seq<u8>, m: Seq<ValueView>, y: Seq<u8>, n: int)
    requires
        0 <= n <= l.len(),
        n <= m.len(),
        encodings(l, n) + x == encodings(m, n) + y,
    ensures
        encodings(l, n) == encodings(m, n),
        forall|i: int| 0 <= i < n ==> encoding(#[trigger] l[i]) == encoding(m[i]),
        x == y,
    decreases l, n,
{
    if n > 0 {
        let e = encoding(l[n - 1]);
        let g = encoding(m[n - 1]);
        assert(encodings(l, n) + x =~= encodings(l, n - 1) + (e + x));
        assert(encodings(m, n) + y =~= encodings(m, n - 1) + (g + y));
        lemma_runs(l, e + x, m, g + y, n - 1);
        encodings_do_not_overlap(l[n - 1], x, m[n - 1], y);
    } else {
        assert(encodings(l, n) + x =~= x);
        assert(encodings(m, n) + y =~= y);
    }
}

/// A value that its encoding holds whole.
pub open spec fn fits(v: ValueView) -> bool
    decreases v,
{
    match v {
        ValueView::Bytes(b) => b.len() <= MAX_LEN,
        ValueView::Str(s) => vstd::utf8::encode_utf8(s).len() <= MAX_LEN,
        ValueView::List(l) => l.len() <= MAX_LEN && forall|i: int|
            0 <= i < l.len() ==> fits(#[trigger] l[i]),
        _ => true,
    }
}

pub open spec fn tag(v: ValueView) -> u8 {
    match v {
        ValueView::Bytes(_) => TAG_BYTES,
        ValueView::U64(_) => TAG_U64,
        ValueView::I64(_) => TAG_I64,
        ValueView::Bool(_) => TAG_BOOL,
        ValueView::Str(_) => TAG_STR,
        ValueView::List(_) => TAG_LIST,
    }
}

/// An encoding starts with its value's tag.
pub proof fn encoding_starts_with_the_tag(v: ValueView)
    ensures
        encoding(v).len() > 0,
        encoding(v)[0] == tag(v),
{
}

/// Values that fit have equal encodings only if they are equal.
pub proof fn encoding_is_injective(v: ValueView, w: ValueView)
    requires
        fits(v),
        fits(w),
        encoding(v) == encoding(w),
    ensures
        v == w,
    decreases v,
{
    encoding_starts_with_the_tag(v);
    encoding_starts_with_the_tag(w);
    let e = Seq::<u8>::empty();
    match (v, w) {
        (ValueView::Bytes(p), ValueView::Bytes(q)) => {
            lemma_prefixed(TAG_BYTES, p, e, q, e);
            assert(p.take(kept(p.len())) =~= p);
            assert(q.take(kept(q.len())) =~= q);
        },
        (ValueView::Str(s), ValueView::Str(t)) => {
            let p = vstd::utf8::encode_utf8(s);
            let q = vstd::utf8::encode_utf8(t);
            lemma_prefixed(TAG_STR, p, e, q, e);
            assert(p.take(kept(p.len())) =~= p);
            assert(q.take(kept(q.len())) =~= q);
            vstd::utf8::encode_utf8_decode_utf8(s);
            vstd::utf8::encode_utf8_decode_utf8(t);
        },
        (ValueView::U64(a), ValueView::U64(b)) => {
            lemma_split(seq![TAG_U64], be64(a as int), seq![TAG_U64], be64(b as int));
            lemma_be64(a as int, b as int);
        },
        (ValueView::I64(a), ValueView::I64(b)) => {
            lemma_split(seq![TAG_I64], be64(unsigned(a)), seq![TAG_I64], be64(unsigned(b)));
            lemma_be64(unsigned(a), unsigned(b));
        },
        (ValueView::Bool(a), ValueView::Bool(b)) => {
            assert(encoding(v)[1] == encoding(w)[1]);
        },
        (ValueView::List(l), ValueView::List(m)) => {
            let n = kept(l.len());
            let k = kept(m.len());
            let hl = seq![TAG_LIST] + be16(n);
            let hm = seq![TAG_LIST] + be16(k);
            lemma_split(hl, encodings(l, n), hm, encodings(m, k));
            lemma_split(seq![TAG_LIST], be16(n), seq![TAG_LIST], be16(k));
            lemma_be16(n, k);
            lemma_runs(l, e, m, e, n);
            assert forall|i: int| 0 <= i < l.len() implies l[i] == m[i] by {
                assert(encoding(l[i]) == encoding(m[i]));
                encoding_is_injective(l[i], m[i]);
            }
            assert(l =~= m);
        },
        _ => {},
    }
}

/// One endpoint of a key, or what both share.
pub open spec fn part(s: Sides, which: int) -> Seq<u8> {
    if which == 0 {
        s.shared
    } else if which == 1 {
        s.a
    } else {
        s.b
    }
}

proof fn lemma_parts(
    key: Seq<KeyField>,
    n: int,
    f: Fields,
    fw: int,
    x: Seq<u8>,
    g: Fields,
    gw: int,
    y: Seq<u8>,
)
    requires
        0 <= n <= key.len(),
        sides(key, n, f) is Ok,
        sides(key, n, g) is Ok,
        fw == 0 <==> gw == 0,
        part(sides(key, n, f)->Ok_0, fw) + x == part(sides(key, n, g)->Ok_0, gw) + y,
    ensures
        part(sides(key, n, f)->Ok_0, fw) == part(sides(key, n, g)->Ok_0, gw),
        x == y,
    decreases n,
{
    if n > 0 {
        let before_f = part(sides(key, n - 1, f)->Ok_0, fw);
        let before_g = part(sides(key, n - 1, g)->Ok_0, gw);
        let kf = key[n - 1];
        if (kf.b is None) == (fw == 0) {
            let vf = if kf.b is Some && fw != 1 {
                f[kf.b->0@]
            } else {
                f[kf.a@]
            };
            let vg = if kf.b is Some && gw != 1 {
                g[kf.b->0@]
            } else {
                g[kf.a@]
            };
            assert(before_f + encoding(vf) + x =~= before_f + (encoding(vf) + x));
            assert(before_g + encoding(vg) + y =~= before_g + (encoding(vg) + y));
            lemma_parts(key, n - 1, f, fw, encoding(vf) + x, g, gw, encoding(vg) + y);
            encodings_do_not_overlap(vf, x, vg, y);
        } else {
            lemma_parts(key, n - 1, f, fw, x, g, gw, y);
        }
    } else {
        lemma_split(Seq::empty(), x, Seq::empty(), y);
    }
}

/// The endpoint that comes first in the key.
pub open spec fn lower(s: Sides) -> Seq<u8> {
    if lex_le(s.a, s.b) {
        s.a
    } else {
        s.b
    }
}

/// The endpoint that comes last in the key.
pub open spec fn upper(s: Sides) -> Seq<u8> {
    if lex_le(s.a, s.b) {
        s.b
    } else {
        s.a
    }
}

/// Within a protocol two layers have one key exactly if they agree on what both
/// directions share and on the two endpoints, whichever of them sent.
pub proof fn keys_are_injective(identity: Identity, f: Fields, g: Fields)
    requires
        identity.policy is EndpointSort,
        key_of(identity, f) is Ok,
        key_of(identity, g) is Ok,
    ensures
        ({
            let n = identity.key.len() as int;
            let s = sides(identity.key, n, f)->Ok_0;
            let t = sides(identity.key, n, g)->Ok_0;
            key_of(identity, f)->Ok_0.0 == key_of(identity, g)->Ok_0.0 <==> (s.shared == t.shared
                && lower(s) == lower(t) && upper(s) == upper(t))
        }),
{
    let key = identity.key;
    let n = key.len() as int;
    let s = sides(key, n, f)->Ok_0;
    let t = sides(key, n, g)->Ok_0;
    if key_of(identity, f)->Ok_0.0 == key_of(identity, g)->Ok_0.0 {
        let fw: int = if lex_le(s.a, s.b) {
            1
        } else {
            2
        };
        let gw: int = if lex_le(t.a, t.b) {
            1
        } else {
            2
        };
        assert(s.shared + lower(s) + upper(s) =~= s.shared + (lower(s) + upper(s)));
        assert(t.shared + lower(t) + upper(t) =~= t.shared + (lower(t) + upper(t)));
        lemma_parts(key, n, f, 0, lower(s) + upper(s), g, 0, lower(t) + upper(t));
        lemma_parts(key, n, f, fw, upper(s), g, gw, upper(t));
    }
}

/// Of two byte strings of one length the smaller is the one with the smaller byte at
/// the first place where they differ.
pub proof fn the_first_difference_decides(a: Seq<u8>, b: Seq<u8>, i: int)
    requires
        0 <= i < a.len(),
        i < b.len(),
        forall|j: int| 0 <= j < i ==> a[j] == b[j],
        a[i] != b[i],
    ensures
        lex_le(a, b) <==> a[i] < b[i],
    decreases i,
{
    if i > 0 {
        assert forall|j: int| 0 <= j < i - 1 implies a.drop_first()[j] == b.drop_first()[j] by {
            assert(a[j + 1] == b[j + 1]);
        }
        the_first_difference_decides(a.drop_first(), b.drop_first(), i - 1);
    }
}

/// A string comes before every longer one that begins with it.
pub proof fn beginnings_come_first(a: Seq<u8>, x: Seq<u8>)
    ensures
        lex_le(a, a + x),
        lex_le(a + x, a) ==> x.len() == 0,
    decreases a.len(),
{
    if a.len() > 0 {
        assert((a + x).drop_first() =~= a.drop_first() + x);
        beginnings_come_first(a.drop_first(), x);
    }
}

/// Numbers are ordered as their encodings are, so that of two numbered endpoints the
/// smaller is A.
pub proof fn numbers_are_ordered_as_encoded(m: u64, n: u64)
    ensures
        lex_le(encoding(ValueView::U64(m)), encoding(ValueView::U64(n))) <==> m <= n,
{
    let a = encoding(ValueView::U64(m));
    let b = encoding(ValueView::U64(n));
    let x = be64(m as int);
    let y = be64(n as int);
    assert(a[0] == b[0]);
    assert(a.drop_first() =~= x);
    assert(b.drop_first() =~= y);
    lemma_octets(m as int);
    lemma_octets(n as int);
    if x[0] != y[0] {
        the_first_difference_decides(x, y, 0);
    } else if x[1] != y[1] {
        the_first_difference_decides(x, y, 1);
    } else if x[2] != y[2] {
        the_first_difference_decides(x, y, 2);
    } else if x[3] != y[3] {
        the_first_difference_decides(x, y, 3);
    } else if x[4] != y[4] {
        the_first_difference_decides(x, y, 4);
    } else if x[5] != y[5] {
        the_first_difference_decides(x, y, 5);
    } else if x[6] != y[6] {
        the_first_difference_decides(x, y, 6);
    } else if x[7] != y[7] {
        the_first_difference_decides(x, y, 7);
    } else {
        assert(x =~= y);
        lex_le_is_a_total_order(x, y);
    }
}

} // verus!

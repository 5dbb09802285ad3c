//! Tag-length-value framing in the distinguished encoding of ASN.1 (X.690).
use vstd::prelude::*;

use crate::bytes::{self, ByteReader, ParseError};

verus! {

/// A length octet with this bit set counts the octets that hold the length.
pub const LONG_FORM: u8 = 0x80;

/// The number that a run of octets spells, most significant octet first.
pub open spec fn number(octets: Seq<u8>) -> int
    decreases octets.len(),
{
    if octets.len() == 0 {
        0
    } else {
        number(octets.drop_last()) * 0x100 + octets.last()
    }
}

/// One more than the largest number of `n` octets.
pub open spec fn limit(n: nat) -> int
    decreases n,
{
    if n == 0 {
        1
    } else {
        limit((n - 1) as nat) * 0x100
    }
}

/// A number of `n` octets is below [`limit`], and eight octets fit a `u64`.
pub proof fn number_is_bounded(octets: Seq<u8>)
    ensures
        0 <= number(octets) < limit(octets.len()),
        octets.len() <= 8 ==> number(octets) <= u64::MAX,
    decreases octets.len(),
{
    if octets.len() > 0 {
        number_is_bounded(octets.drop_last());
    }
    limit_grows(octets.len(), 8);
    reveal_with_fuel(limit, 9);
}

proof fn limit_grows(n: nat, m: nat)
    ensures
        limit(n) >= 1,
        n <= m ==> limit(n) <= limit(m),
    decreases m + n,
{
    if n > 0 {
        limit_grows((n - 1) as nat, if m > 0 {
            (m - 1) as nat
        } else {
            0
        });
    } else if m > 0 {
        limit_grows(0, (m - 1) as nat);
    }
}

/// The length at `p` and where it ends: one octet, or an octet that says how
/// many octets follow.
pub open spec fn length_at(b: Seq<u8>, p: int) -> Result<(u64, int), ParseError> {
    let width = (b[p] & 0x7F) as int;
    if b.len() < p + 1 {
        Err(bytes::short(b, p, 1))
    } else if b[p] & LONG_FORM == 0 {
        Ok((b[p] as u64, p + 1))
    } else if width == 0 {
        Err(ParseError::Malformed("indefinite-length BER encoding is not valid DER"))
    } else if width > 8 {
        Err(ParseError::Malformed("DER length wider than 8 octets"))
    } else if b.len() < p + 1 + width {
        Err(bytes::short(b, p + 1, width))
    } else {
        Ok((number(b.subrange(p + 1, p + 1 + width)) as u64, p + 1 + width))
    }
}

/// A length as a number of bytes in memory.
pub open spec fn in_memory(length: u64) -> int {
    if length > usize::MAX {
        usize::MAX as int
    } else {
        length as int
    }
}

/// The tag and content at `p`, and where the content ends.
pub open spec fn tlv_at(b: Seq<u8>, p: int) -> Result<(u8, Seq<u8>, int), ParseError> {
    if b.len() < p + 1 {
        Err(bytes::short(b, p, 1))
    } else {
        match length_at(b, p + 1) {
            Err(e) => Err(e),
            Ok((length, at)) => if b.len() < at + in_memory(length) {
                Err(bytes::short(b, at, in_memory(length)))
            } else {
                Ok((b[p], b.subrange(at, at + in_memory(length)), at + in_memory(length)))
            },
        }
    }
}

/// The number in up to eight octets.
pub fn read_number(octets: &[u8]) -> (r: u64)
    requires
        octets@.len() <= 8,
    ensures
        r == number(octets@),
{
    let n: usize = octets.len();
    let mut value: u64 = 0;
    let mut i: usize = 0;
    while i < n
        invariant
            n == octets@.len() <= 8,
            i <= n,
            value == number(octets@.take(i as int)),
        decreases n - i,
    {
        assert(octets@.take(i + 1).drop_last() =~= octets@.take(i as int));
        proof {
            number_is_bounded(octets@.take(i + 1));
        }
        value = value * 0x100 + octets[i] as u64;
        i = i + 1;
    }
    assert(octets@.take(n as int) =~= octets@);
    value
}

pub fn read_length(r: &mut ByteReader) -> (res: Result<u64, ParseError>)
    requires
        old(r).wf(),
    ensures
        final(r).wf(),
        final(r).data == old(r).data,
        match length_at(old(r).data@, old(r).pos as int) {
            Ok((length, end)) => res is Ok && res->Ok_0 == length && final(r).pos == end,
            Err(e) => res is Err && res->Err_0 == e,
        },
{
    let first: u8 = r.u8()?;
    if first & LONG_FORM == 0 {
        return Ok(first as u64);
    }
    let width: u8 = first & 0x7F;
    if width == 0 {
        return Err(ParseError::Malformed("indefinite-length BER encoding is not valid DER"));
    }
    if width > 8 {
        return Err(ParseError::Malformed("DER length wider than 8 octets"));
    }
    let octets = r.take(width as usize)?;
    Ok(read_number(octets))
}

/// A length as a number of bytes to take.
pub fn to_count(length: u64) -> (r: usize)
    ensures
        r == in_memory(length),
{
    if length > usize::MAX as u64 {
        usize::MAX
    } else {
        length as usize
    }
}

/// One tag and its content.
pub struct Tlv<'a> {
    pub tag: u8,
    pub content: &'a [u8],
}

pub fn read_tlv<'a>(r: &mut ByteReader<'a>) -> (res: Result<Tlv<'a>, ParseError>)
    requires
        old(r).wf(),
    ensures
        final(r).wf(),
        final(r).data == old(r).data,
        match tlv_at(old(r).data@, old(r).pos as int) {
            Ok((tag, content, end)) => res is Ok && res->Ok_0.tag == tag && res->Ok_0.content@
                == content && final(r).pos == end,
            Err(e) => res is Err && res->Err_0 == e,
        },
{
    let tag: u8 = r.u8()?;
    let length: u64 = read_length(r)?;
    let content = r.take(to_count(length))?;
    Ok(Tlv { tag, content })
}

} // verus!

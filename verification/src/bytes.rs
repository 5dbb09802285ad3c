//! Reading integers and sub-ranges out of a byte string.
use vstd::prelude::*;

verus! {

/// A read asked for `needed` bytes where only `have` were left.
#[derive(Clone, Copy, PartialEq, Eq, Debug, Structural)]
pub struct Truncated {
    pub needed: usize,
    pub have: usize,
}

/// Why a plugin declined its bytes.
#[derive(Clone, Copy, PartialEq, Eq, Debug)]
pub enum ParseError {
    /// The header runs past the end of the bytes.
    Truncated(Truncated),
    /// The bytes are not this protocol's.
    Malformed(&'static str),
}

/// The error of a read of `needed` bytes at `pos`.
pub open spec fn short(b: Seq<u8>, pos: int, needed: int) -> ParseError {
    ParseError::Truncated(Truncated { needed: needed as usize, have: (b.len() - pos) as usize })
}

/// The error where the end of a line or of a header block is not in `b`: at
/// least one byte more is needed.
pub open spec fn no_end(b: Seq<u8>) -> ParseError {
    let needed = if b.len() < usize::MAX {
        (b.len() + 1) as usize
    } else {
        usize::MAX
    };
    ParseError::Truncated(Truncated { needed, have: b.len() as usize })
}

/// Computes [`no_end`].
pub fn unterminated(b: &[u8]) -> (r: ParseError)
    ensures
        r == no_end(b@),
{
    let have: usize = b.len();
    ParseError::Truncated(Truncated { needed: have.saturating_add(1), have })
}

pub open spec fn be16(b: Seq<u8>, i: int) -> u16 {
    (b[i] * 0x100 + b[i + 1]) as u16
}

pub open spec fn le16(b: Seq<u8>, i: int) -> u16 {
    (b[i + 1] * 0x100 + b[i]) as u16
}

pub open spec fn be24(b: Seq<u8>, i: int) -> u32 {
    (b[i] * 0x1_0000 + b[i + 1] * 0x100 + b[i + 2]) as u32
}

pub open spec fn be32(b: Seq<u8>, i: int) -> u32 {
    (b[i] * 0x100_0000 + b[i + 1] * 0x1_0000 + b[i + 2] * 0x100 + b[i + 3]) as u32
}

pub open spec fn le32(b: Seq<u8>, i: int) -> u32 {
    (b[i + 3] * 0x100_0000 + b[i + 2] * 0x1_0000 + b[i + 1] * 0x100 + b[i]) as u32
}

pub open spec fn be64(b: Seq<u8>, i: int) -> u64 {
    (be32(b, i) * 0x1_0000_0000 + be32(b, i + 4)) as u64
}

/// A cursor over a byte string. Every read either advances past what it
/// returns or reports [`Truncated`] and stays where it was.
pub struct ByteReader<'a> {
    pub data: &'a [u8],
    pub pos: usize,
}

impl<'a> ByteReader<'a> {
    pub open spec fn wf(self) -> bool {
        self.pos <= self.data@.len() <= usize::MAX
    }

    pub fn new(data: &'a [u8]) -> (r: ByteReader<'a>)
        ensures
            r.wf(),
            r.data@ == data@,
            r.pos == 0,
    {
        let _len: usize = data.len();
        ByteReader { data, pos: 0 }
    }

    /// Bytes not yet read.
    pub fn remaining(&self) -> (n: usize)
        requires
            self.wf(),
        ensures
            n == self.data@.len() - self.pos,
    {
        self.data.len() - self.pos
    }

    /// The next `n` bytes.
    pub fn take(&mut self, n: usize) -> (r: Result<&'a [u8], ParseError>)
        requires
            old(self).wf(),
        ensures
            final(self).wf(),
            final(self).data == old(self).data,
            match r {
                Ok(s) => old(self).pos + n <= old(self).data@.len()
                    && final(self).pos == old(self).pos + n
                    && s@ == old(self).data@.subrange(old(self).pos as int, old(self).pos + n),
                Err(e) => old(self).pos + n > old(self).data@.len()
                    && final(self).pos == old(self).pos
                    && e == short(old(self).data@, old(self).pos as int, n as int),
            },
    {
        let have: usize = self.data.len() - self.pos;
        if n > have {
            return Err(ParseError::Truncated(Truncated { needed: n, have }));
        }
        let s = vstd::slice::slice_subrange(self.data, self.pos, self.pos + n);
        self.pos = self.pos + n;
        Ok(s)
    }

    pub fn u8(&mut self) -> (r: Result<u8, ParseError>)
        requires
            old(self).wf(),
        ensures
            final(self).wf(),
            final(self).data == old(self).data,
            match r {
                Ok(v) => old(self).pos + 1 <= old(self).data@.len()
                    && final(self).pos == old(self).pos + 1
                    && v == old(self).data@[old(self).pos as int],
                Err(e) => old(self).pos + 1 > old(self).data@.len()
                    && final(self).pos == old(self).pos
                    && e == short(old(self).data@, old(self).pos as int, 1),
            },
    {
        let s = self.take(1)?;
        Ok(s[0])
    }

    pub fn u16_be(&mut self) -> (r: Result<u16, ParseError>)
        requires
            old(self).wf(),
        ensures
            final(self).wf(),
            final(self).data == old(self).data,
            match r {
                Ok(v) => old(self).pos + 2 <= old(self).data@.len()
                    && final(self).pos == old(self).pos + 2
                    && v == be16(old(self).data@, old(self).pos as int),
                Err(e) => old(self).pos + 2 > old(self).data@.len()
                    && final(self).pos == old(self).pos
                    && e == short(old(self).data@, old(self).pos as int, 2),
            },
    {
        let s = self.take(2)?;
        Ok(s[0] as u16 * 0x100 + s[1] as u16)
    }

    pub fn u16_le(&mut self) -> (r: Result<u16, ParseError>)
        requires
            old(self).wf(),
        ensures
            final(self).wf(),
            final(self).data == old(self).data,
            match r {
                Ok(v) => old(self).pos + 2 <= old(self).data@.len()
                    && final(self).pos == old(self).pos + 2
                    && v == le16(old(self).data@, old(self).pos as int),
                Err(e) => old(self).pos + 2 > old(self).data@.len()
                    && final(self).pos == old(self).pos
                    && e == short(old(self).data@, old(self).pos as int, 2),
            },
    {
        let s = self.take(2)?;
        Ok(s[1] as u16 * 0x100 + s[0] as u16)
    }

    /// A 24-bit big-endian integer.
    pub fn u24_be(&mut self) -> (r: Result<u32, ParseError>)
        requires
            old(self).wf(),
        ensures
            final(self).wf(),
            final(self).data == old(self).data,
            match r {
                Ok(v) => old(self).pos + 3 <= old(self).data@.len()
                    && final(self).pos == old(self).pos + 3
                    && v == be24(old(self).data@, old(self).pos as int),
                Err(e) => old(self).pos + 3 > old(self).data@.len()
                    && final(self).pos == old(self).pos
                    && e == short(old(self).data@, old(self).pos as int, 3),
            },
    {
        let s = self.take(3)?;
        Ok(s[0] as u32 * 0x1_0000 + s[1] as u32 * 0x100 + s[2] as u32)
    }

    pub fn u32_be(&mut self) -> (r: Result<u32, ParseError>)
        requires
            old(self).wf(),
        ensures
            final(self).wf(),
            final(self).data == old(self).data,
            match r {
                Ok(v) => old(self).pos + 4 <= old(self).data@.len()
                    && final(self).pos == old(self).pos + 4
                    && v == be32(old(self).data@, old(self).pos as int),
                Err(e) => old(self).pos + 4 > old(self).data@.len()
                    && final(self).pos == old(self).pos
                    && e == short(old(self).data@, old(self).pos as int, 4),
            },
    {
        let s = self.take(4)?;
        Ok(s[0] as u32 * 0x100_0000 + s[1] as u32 * 0x1_0000 + s[2] as u32 * 0x100 + s[3] as u32)
    }

    pub fn u32_le(&mut self) -> (r: Result<u32, ParseError>)
        requires
            old(self).wf(),
        ensures
            final(self).wf(),
            final(self).data == old(self).data,
            match r {
                Ok(v) => old(self).pos + 4 <= old(self).data@.len()
                    && final(self).pos == old(self).pos + 4
                    && v == le32(old(self).data@, old(self).pos as int),
                Err(e) => old(self).pos + 4 > old(self).data@.len()
                    && final(self).pos == old(self).pos
                    && e == short(old(self).data@, old(self).pos as int, 4),
            },
    {
        let s = self.take(4)?;
        Ok(s[3] as u32 * 0x100_0000 + s[2] as u32 * 0x1_0000 + s[1] as u32 * 0x100 + s[0] as u32)
    }

    pub fn u64_be(&mut self) -> (r: Result<u64, ParseError>)
        requires
            old(self).wf(),
        ensures
            final(self).wf(),
            final(self).data == old(self).data,
            match r {
                Ok(v) => old(self).pos + 8 <= old(self).data@.len()
                    && final(self).pos == old(self).pos + 8
                    && v == be64(old(self).data@, old(self).pos as int),
                Err(e) => old(self).pos + 8 > old(self).data@.len()
                    && final(self).pos == old(self).pos
                    && e == short(old(self).data@, old(self).pos as int, 8),
            },
    {
        let s = self.take(8)?;
        let hi: u32 = s[0] as u32 * 0x100_0000 + s[1] as u32 * 0x1_0000 + s[2] as u32 * 0x100
            + s[3] as u32;
        let lo: u32 = s[4] as u32 * 0x100_0000 + s[5] as u32 * 0x1_0000 + s[6] as u32 * 0x100
            + s[7] as u32;
        Ok(hi as u64 * 0x1_0000_0000 + lo as u64)
    }
}

} // verus!

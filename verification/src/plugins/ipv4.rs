//! IPv4 (RFC 791): IP conversations, recognition of raw IP by its bytes, and the
//! routing of fragments: a fragment that is not the first carries no transport
//! header, so nothing is looked for behind it.
use vstd::prelude::*;

use crate::bytes::{self, ByteReader, ParseError};
use crate::identity::{
    self, CondenseSpec, Identity, KeyField, RollupKind, RollupSpec, StreamIdentity,
};
use crate::layer::{Confidence, Context, Hint, LayerPlugin, ParseCtx, Parsed, ParsedLayer, RouteId};
use crate::value::{FieldMap, FieldName, Fields, ProtocolName, Value, ValueView};

verus! {

pub const SRC_ADDR: FieldName = "src_addr";

pub const DST_ADDR: FieldName = "dst_addr";

pub const PROTOCOL: FieldName = "protocol";

pub const TTL: FieldName = "ttl";

pub const TOTAL_LEN: FieldName = "total_len";

pub const FLAGS: FieldName = "flags";

pub const FRAG_OFFSET: FieldName = "frag_offset";

pub const IHL: FieldName = "ihl";

pub const DSCP: FieldName = "dscp";

pub const ECN: FieldName = "ecn";

pub const ID: FieldName = "id";

pub const CHECKSUM: FieldName = "checksum";

pub const OPTIONS: FieldName = "options";

/// The sum of the 16-bit words of `h` from byte `i` on; an odd last byte is the
/// high half of a word.
pub open spec fn word_sum(h: Seq<u8>, i: int) -> int
    decreases h.len() - i,
{
    if i < 0 || i >= h.len() {
        0
    } else if i + 1 == h.len() {
        h[i] * 0x100
    } else {
        bytes::be16(h, i) + word_sum(h, i + 2)
    }
}

/// The 16-bit one's complement sum that a plain sum folds to.
pub open spec fn folded(sum: int) -> int {
    if sum == 0 {
        0
    } else {
        (sum - 1) % 0xFFFF + 1
    }
}

/// The internet checksum (RFC 1071) of `h`.
pub open spec fn checksum_of(h: Seq<u8>) -> u16 {
    (0xFFFF - folded(word_sum(h, 0))) as u16
}

proof fn lemma_fold_step(sum: int, word: int)
    requires
        0 <= sum,
        0 <= word <= 0xFFFF,
    ensures
        0 <= folded(sum) <= 0xFFFF,
        folded(sum + word) == if folded(sum) + word > 0xFFFF {
            folded(sum) + word - 0xFFFF
        } else {
            folded(sum) + word
        },
{
}

proof fn lemma_word_sum_set(h: Seq<u8>, at: int, i: int)
    requires
        at % 2 == 0,
        i % 2 == 0,
        0 <= i,
        0 <= at,
        at + 1 < h.len(),
    ensures
        word_sum(h, i) >= 0,
        word_sum(h, i) == word_sum(h.update(at, 0).update(at + 1, 0), i) + if i <= at {
            bytes::be16(h, at) as int
        } else {
            0
        },
    decreases h.len() - i,
{
    if i < h.len() && i + 1 < h.len() {
        lemma_word_sum_set(h, at, i + 2);
    }
}

/// A header is valid when its checksum field holds the checksum of the header
/// with that field zero; the checksum over such a header is zero.
pub proof fn valid_header_sums_to_zero(h: Seq<u8>)
    requires
        h.len() >= 12,
        bytes::be16(h, 10) == checksum_of(h.update(10, 0).update(11, 0)),
    ensures
        checksum_of(h) == 0,
{
    let blank = h.update(10, 0).update(11, 0);
    lemma_word_sum_set(h, 10, 0);
    lemma_word_sum_set(blank, 10, 0);
    let rest = word_sum(blank, 0);
    lemma_fold_step(rest, 0xFFFF - folded(rest));
}

/// RFC 1071 internet checksum over `header`; a valid IPv4 header sums to 0.
pub fn internet_checksum(header: &[u8]) -> (r: u16)
    ensures
        r == checksum_of(header@),
{
    let n: usize = header.len();
    let mut sum: u32 = 0;
    let ghost mut total: int = 0;
    let mut i: usize = 0;
    while i < n
        invariant
            n == header@.len(),
            total >= 0,
            sum <= 0xFFFF,
            sum == folded(total),
            total + word_sum(header@, i as int) == word_sum(header@, 0),
        decreases n - i,
    {
        let high: u32 = header[i] as u32 * 0x100;
        let word: u32 = if n - i > 1 {
            high + header[i + 1] as u32
        } else {
            high
        };
        proof {
            lemma_fold_step(total, word as int);
            total = total + word;
        }
        sum = sum + word;
        if sum > 0xFFFF {
            sum = sum - 0xFFFF;
        }
        if n - i > 1 {
            i = i + 2;
        } else {
            i = n;
        }
    }
    (0xFFFF - sum) as u16
}

pub open spec fn header_end(b: Seq<u8>) -> int {
    (b[0] & 0x0F) * 4
}

pub open spec fn frag_offset(b: Seq<u8>) -> u16 {
    bytes::be16(b, 6) & 0x1FFF
}

pub open spec fn fields(b: Seq<u8>, ctx: Context) -> Fields {
    let f = Map::<Seq<char>, ValueView>::empty();
    let f = if ctx.keys() {
        f
            .insert(SRC_ADDR@, ValueView::Bytes(b.subrange(12, 16)))
            .insert(DST_ADDR@, ValueView::Bytes(b.subrange(16, 20)))
    } else {
        f
    };
    let f = if ctx.structural() {
        f
            .insert(PROTOCOL@, ValueView::U64(b[9] as u64))
            .insert(TTL@, ValueView::U64(b[8] as u64))
            .insert(TOTAL_LEN@, ValueView::U64(bytes::be16(b, 2) as u64))
            .insert(FLAGS@, ValueView::U64((bytes::be16(b, 6) >> 13) as u64))
            .insert(FRAG_OFFSET@, ValueView::U64(frag_offset(b) as u64))
            .insert(IHL@, ValueView::U64((b[0] & 0x0F) as u64))
    } else {
        f
    };
    let f = if ctx.full() {
        f
            .insert(DSCP@, ValueView::U64((b[1] >> 2) as u64))
            .insert(ECN@, ValueView::U64((b[1] & 0x03) as u64))
            .insert(ID@, ValueView::U64(bytes::be16(b, 4) as u64))
            .insert(CHECKSUM@, ValueView::U64(bytes::be16(b, 10) as u64))
    } else {
        f
    };
    if ctx.full() && header_end(b) > 20 {
        f.insert(OPTIONS@, ValueView::Bytes(b.subrange(20, header_end(b))))
    } else {
        f
    }
}

/// The header at the start of `b`.
pub open spec fn message(b: Seq<u8>, ctx: Context) -> Result<Parsed, ParseError> {
    if b.len() < 1 {
        Err(bytes::short(b, 0, 1))
    } else if b[0] >> 4 != 4 {
        Err(ParseError::Malformed("version nibble is not 4"))
    } else if b[0] & 0x0F < 5 {
        Err(ParseError::Malformed("IHL below 5"))
    } else if b.len() < 2 {
        Err(bytes::short(b, 1, 1))
    } else if b.len() < 8 {
        Err(bytes::short(b, b.len() - b.len() % 2, 2))
    } else if b.len() < 10 {
        Err(bytes::short(b, b.len() as int, 1))
    } else if b.len() < 12 {
        Err(bytes::short(b, 10, 2))
    } else if b.len() < 20 {
        Err(bytes::short(b, b.len() - b.len() % 4, 4))
    } else if b.len() < header_end(b) {
        Err(bytes::short(b, 20, header_end(b) - 20))
    } else {
        Ok(
            Parsed {
                header_len: header_end(b),
                fields: fields(b, ctx),
                hint: if frag_offset(b) > 0 {
                    Hint::Terminal
                } else {
                    Hint::Route(RouteId::IpProtocol(b[9]))
                },
            },
        )
    }
}

pub struct Ipv4;

impl LayerPlugin for Ipv4 {
    open spec fn spec_parse(&self, bytes: Seq<u8>, ctx: Context) -> Result<Parsed, ParseError> {
        message(bytes, ctx)
    }

    open spec fn spec_name(&self) -> Seq<char> {
        "ipv4"@
    }

    open spec fn spec_claims(&self) -> Seq<RouteId> {
        seq![RouteId::EtherType(0x0800), RouteId::IpProtocol(4)]
    }

    open spec fn spec_identity(&self) -> Option<Identity> {
        identity::conversation_of(
            seq![KeyField { a: SRC_ADDR, b: Some(DST_ADDR) }],
            seq![RollupSpec { field: PROTOCOL, kind: RollupKind::Accumulate }],
        )
    }

    open spec fn spec_condense(&self) -> Option<CondenseSpec> {
        None
    }

    open spec fn spec_has_probe(&self) -> bool {
        true
    }

    /// A complete header of the right version whose total length fits the
    /// bytes and whose checksum is right.
    open spec fn spec_probe(&self, bytes: Seq<u8>, ctx: Context) -> Option<u8> {
        if bytes.len() >= 1 && bytes[0] >> 4 == 4 && bytes[0] & 0x0F >= 5 && header_end(bytes)
            <= bytes.len() && header_end(bytes) <= bytes::be16(bytes, 2) <= bytes.len()
            && checksum_of(bytes.subrange(0, header_end(bytes))) == 0 {
            Some(90u8)
        } else {
            None
        }
    }

    open spec fn spec_predecessors(&self) -> Seq<ProtocolName> {
        Seq::empty()
    }

    fn name(&self) -> (r: ProtocolName) {
        "ipv4"
    }

    fn parse(&self, bytes: &[u8], ctx: &ParseCtx) -> (r: Result<ParsedLayer, ParseError>) {
        let mut r = ByteReader::new(bytes);
        let ver_ihl: u8 = r.u8()?;
        if ver_ihl >> 4 != 4 {
            return Err(ParseError::Malformed("version nibble is not 4"));
        }
        let ihl: u8 = ver_ihl & 0x0F;
        if ihl < 5 {
            return Err(ParseError::Malformed("IHL below 5"));
        }
        let header_len: usize = ihl as usize * 4;
        let dscp_ecn: u8 = r.u8()?;
        let total_len: u16 = r.u16_be()?;
        let id: u16 = r.u16_be()?;
        let flags_frag: u16 = r.u16_be()?;
        let ttl: u8 = r.u8()?;
        let protocol: u8 = r.u8()?;
        let checksum: u16 = r.u16_be()?;
        let src = r.take(4)?;
        let dst = r.take(4)?;
        let options = r.take(header_len - 20)?;

        let frag_offset: u16 = flags_frag & 0x1FFF;
        let mut fields = FieldMap::new();
        if ctx.keys() {
            fields.insert(SRC_ADDR, Value::from(src));
            fields.insert(DST_ADDR, Value::from(dst));
        }
        if ctx.structural() {
            fields.insert(PROTOCOL, Value::U64(protocol as u64));
            fields.insert(TTL, Value::U64(ttl as u64));
            fields.insert(TOTAL_LEN, Value::U64(total_len as u64));
            fields.insert(FLAGS, Value::U64((flags_frag >> 13) as u64));
            fields.insert(FRAG_OFFSET, Value::U64(frag_offset as u64));
            fields.insert(IHL, Value::U64(ihl as u64));
        }
        if ctx.full() {
            fields.insert(DSCP, Value::U64((dscp_ecn >> 2) as u64));
            fields.insert(ECN, Value::U64((dscp_ecn & 0x03) as u64));
            fields.insert(ID, Value::U64(id as u64));
            fields.insert(CHECKSUM, Value::U64(checksum as u64));
            if options.len() > 0 {
                fields.insert(OPTIONS, Value::from(options));
            }
        }
        let hint = if frag_offset > 0 {
            Hint::Terminal
        } else {
            Hint::Route(RouteId::IpProtocol(protocol))
        };
        Ok(ParsedLayer { header_len, fields, hint })
    }

    fn claims(&self) -> (r: &'static [RouteId]) {
        &[RouteId::EtherType(0x0800), RouteId::IpProtocol(4)]
    }

    fn stream_identity(&self) -> (r: Option<StreamIdentity>) {
        identity::conversation(
            &[KeyField { a: SRC_ADDR, b: Some(DST_ADDR) }],
            &[RollupSpec { field: PROTOCOL, kind: RollupKind::Accumulate }],
        )
    }

    fn condense(&self) -> (r: Option<CondenseSpec>) {
        None
    }

    fn has_probe(&self) -> (r: bool) {
        true
    }

    fn probe(&self, bytes: &[u8], ctx: &ParseCtx) -> (r: Option<Confidence>) {
        if bytes.len() < 1 {
            return None;
        }
        let first: u8 = bytes[0];
        if first >> 4 != 4 || first & 0x0F < 5 {
            return None;
        }
        let header_len: usize = (first & 0x0F) as usize * 4;
        if bytes.len() < header_len {
            return None;
        }
        let header = vstd::slice::slice_subrange(bytes, 0, header_len);
        let total_len: usize = bytes[2] as usize * 0x100 + bytes[3] as usize;
        if total_len > bytes.len() || total_len < header_len {
            return None;
        }
        if internet_checksum(header) == 0 {
            Some(Confidence::new(90))
        } else {
            None
        }
    }

    fn expected_predecessors(&self) -> (r: &'static [ProtocolName]) {
        &[]
    }
}

} // verus!

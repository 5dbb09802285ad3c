//! FTP (RFC 959), the control channel: one line, a reply (three digits, then a
//! space, a hyphen or nothing) or a command. Only commands that the protocol defines
//! are accepted: a port claim routes everything on the port here, and an unknown
//! word is no command. A line whose end is not in the segment is truncated. A reply
//! line that announces a continuation reads like any other.
use vstd::prelude::*;

use crate::bytes::{self, ParseError};
use crate::identity::{
    self, CondenseSpec, Identity, KeyField, RollupKind, RollupSpec, StreamIdentity,
};
use crate::layer::{Confidence, Context, Hint, LayerPlugin, ParseCtx, Parsed, ParsedLayer, RouteId};
use crate::text;
use crate::value::{FieldMap, FieldName, Fields, ProtocolName, Value, ValueView};

verus! {

pub const APP: FieldName = "app";

pub const IS_REQUEST: FieldName = "is_request";

pub const COMMAND: FieldName = "command";

pub const REPLY_CODE: FieldName = "reply_code";

pub const ARG: FieldName = "arg";

/// The commands of RFC 959 and its extensions (RFC 2228, 2389, 2428, 3659).
pub open spec fn commands() -> Seq<&'static str> {
    seq![
        "USER", "PASS", "ACCT", "CWD", "CDUP", "SMNT", "QUIT", "REIN", "PORT", "PASV", "TYPE",
        "STRU", "MODE", "RETR", "STOR", "STOU", "APPE", "ALLO", "REST", "RNFR", "RNTO", "ABOR",
        "DELE", "RMD", "MKD", "PWD", "LIST", "NLST", "SITE", "SYST", "STAT", "HELP", "NOOP",
        "FEAT", "OPTS", "AUTH", "ADAT", "PBSZ", "PROT", "CCC", "MIC", "CONF", "ENC", "EPRT",
        "EPSV", "SIZE", "MDTM", "MLSD", "MLST", "LANG", "XPWD", "XCWD", "XMKD", "XRMD", "XCUP",
    ]
}

pub open spec fn is_command(word: Seq<char>) -> bool {
    exists|i: int| 0 <= i < commands().len() && (#[trigger] commands()[i])@ == word
}

/// A line that starts with a reply code.
pub open spec fn is_reply(line: Seq<u8>) -> bool {
    &&& line.len() >= 3
    &&& text::all_digits(line.take(3))
    &&& line.len() == 3 || line[3] == 0x20 || line[3] == 0x2D
}

/// What follows a reply code.
pub open spec fn reply_text(line: Seq<u8>) -> Seq<u8> {
    if line.len() == 3 {
        Seq::empty()
    } else {
        line.skip(4)
    }
}

pub open spec fn is_letter(b: u8) -> bool {
    0x41 <= b <= 0x5A || 0x61 <= b <= 0x7A
}

/// The first word of a line, in capitals.
pub open spec fn command(line: Seq<u8>) -> Seq<char> {
    Seq::new(text::word_end(line) as nat, |i: int| text::upper(line[i]) as char)
}

/// A line whose first word is a command.
pub open spec fn is_request(line: Seq<u8>) -> bool {
    &&& text::word_end(line) > 0
    &&& forall|i: int| 0 <= i < text::word_end(line) ==> is_letter(#[trigger] line[i])
    &&& is_command(command(line))
}

pub open spec fn fields(line: Seq<u8>, ctx: Context) -> Fields {
    let f = Map::<Seq<char>, ValueView>::empty();
    let f = if ctx.keys() {
        f.insert(APP@, ValueView::Str("ftp"@))
    } else {
        f
    };
    let f = if ctx.structural() && is_reply(line) {
        f
            .insert(IS_REQUEST@, ValueView::Bool(false))
            .insert(REPLY_CODE@, ValueView::U64(text::decimal(line.take(3)) as u64))
    } else {
        f
    };
    let f = if ctx.structural() && !is_reply(line) {
        f
            .insert(IS_REQUEST@, ValueView::Bool(true))
            .insert(COMMAND@, ValueView::Str(command(line)))
    } else {
        f
    };
    let f = if ctx.full() && is_reply(line) {
        f.insert(ARG@, ValueView::Str(text::lossy_text(reply_text(line))))
    } else {
        f
    };
    if ctx.full() && !is_reply(line) {
        f.insert(ARG@, ValueView::Str(text::lossy_text(text::after_word(line))))
    } else {
        f
    }
}

/// The line at the start of `b`.
pub open spec fn message(b: Seq<u8>, ctx: Context) -> Result<Parsed, ParseError> {
    match text::first_line(b) {
        None => Err(bytes::no_end(b)),
        Some((line, end)) => if is_reply(line) || is_request(line) {
            Ok(Parsed { header_len: end, fields: fields(line, ctx), hint: Hint::Terminal })
        } else {
            Err(ParseError::Malformed("not an FTP reply code or command line"))
        },
    }
}

/// A reply's code and text.
fn parse_reply_code<'a>(line: &'a [u8]) -> (r: Option<(u64, &'a [u8])>)
    ensures
        r is Some <==> is_reply(line@),
        r matches Some((code, rest)) ==> code == text::decimal(line@.take(3)) && rest@
            == reply_text(line@),
{
    let n: usize = line.len();
    if n < 3 {
        return None;
    }
    let digits = vstd::slice::slice_subrange(line, 0, 3);
    assert(digits@ =~= line@.take(3));
    if !text::only_digits(digits) {
        return None;
    }
    let code: u64 = text::read_decimal(digits);
    proof {
        three_digits(digits@);
    }
    if n == 3 {
        let rest = vstd::slice::slice_subrange(line, 3, n);
        assert(rest@ =~= reply_text(line@));
        return Some((code, rest));
    }
    if line[3] == 0x20 || line[3] == 0x2D {
        let rest = vstd::slice::slice_subrange(line, 4, n);
        assert(rest@ =~= reply_text(line@));
        return Some((code, rest));
    }
    None
}

proof fn three_digits(d: Seq<u8>)
    requires
        d.len() == 3,
        text::all_digits(d),
    ensures
        0 <= text::decimal(d) <= 999,
{
    assert(text::is_digit(d[0]) && text::is_digit(d[1]) && text::is_digit(d[2]));
    reveal_with_fuel(text::decimal, 4);
    assert(d.drop_last().drop_last().drop_last() =~= Seq::empty());
}

fn known_commands() -> (r: &'static [&'static str])
    ensures
        r@ == commands(),
{
    &[
        "USER", "PASS", "ACCT", "CWD", "CDUP", "SMNT", "QUIT", "REIN", "PORT", "PASV", "TYPE",
        "STRU", "MODE", "RETR", "STOR", "STOU", "APPE", "ALLO", "REST", "RNFR", "RNTO", "ABOR",
        "DELE", "RMD", "MKD", "PWD", "LIST", "NLST", "SITE", "SYST", "STAT", "HELP", "NOOP",
        "FEAT", "OPTS", "AUTH", "ADAT", "PBSZ", "PROT", "CCC", "MIC", "CONF", "ENC", "EPRT",
        "EPSV", "SIZE", "MDTM", "MLSD", "MLST", "LANG", "XPWD", "XCWD", "XMKD", "XRMD", "XCUP",
    ]
}

fn is_known(word: &str) -> (r: bool)
    ensures
        r == is_command(word@),
{
    let all = known_commands();
    let n: usize = all.len();
    let mut i: usize = 0;
    while i < n
        invariant
            all@ == commands(),
            n == all@.len(),
            i <= n,
            forall|j: int| 0 <= j < i ==> (#[trigger] commands()[j])@ != word@,
        decreases n - i,
    {
        if text::str_eq(all[i], word) {
            assert(commands()[i as int]@ == word@);
            return true;
        }
        i = i + 1;
    }
    false
}

/// A command and its argument.
fn parse_command<'a>(line: &'a [u8]) -> (r: Option<(String, &'a [u8])>)
    ensures
        r is Some <==> is_request(line@),
        r matches Some((word, arg)) ==> word@ == command(line@) && arg@ == text::after_word(line@),
{
    let (word, rest) = text::split_word(line);
    let n: usize = word.len();
    if n == 0 {
        return None;
    }
    let mut name = String::new();
    let mut i: usize = 0;
    while i < n
        invariant
            n == word@.len() == text::word_end(line@),
            n <= line@.len(),
            word@ == line@.take(text::word_end(line@)),
            i <= n,
            forall|j: int| 0 <= j < i ==> is_letter(#[trigger] line@[j]),
            name@ == command(line@).take(i as int),
        decreases n - i,
    {
        let c: u8 = word[i];
        assert(c == line@[i as int]);
        if c >= 0x61 && c <= 0x7A {
            name.push((c - 0x20) as char);
        } else if c >= 0x41 && c <= 0x5A {
            name.push(c as char);
        } else {
            assert(!is_letter(line@[i as int]));
            return None;
        }
        i = i + 1;
        assert(command(line@).take(i as int) =~= command(line@).take(i - 1).push(
            command(line@)[i - 1],
        ));
    }
    assert(command(line@).take(n as int) =~= command(line@));
    if !is_known(name.as_str()) {
        return None;
    }
    match rest {
        Some(arg) => Some((name, arg)),
        None => {
            let end: usize = line.len();
            let arg = vstd::slice::slice_subrange(line, end, end);
            assert(arg@ =~= text::after_word(line@));
            Some((name, arg))
        },
    }
}

pub struct Ftp;

impl LayerPlugin for Ftp {
    open spec fn spec_parse(&self, bytes: Seq<u8>, ctx: Context) -> Result<Parsed, ParseError> {
        message(bytes, ctx)
    }

    open spec fn spec_name(&self) -> Seq<char> {
        "ftp"@
    }

    open spec fn spec_claims(&self) -> Seq<RouteId> {
        seq![RouteId::TcpPort(21)]
    }

    open spec fn spec_identity(&self) -> Option<Identity> {
        identity::conversation_of(
            seq![KeyField { a: APP, b: None }],
            seq![
                RollupSpec { field: COMMAND, kind: RollupKind::Accumulate },
                RollupSpec { field: REPLY_CODE, kind: RollupKind::Accumulate },
            ],
        )
    }

    open spec fn spec_condense(&self) -> Option<CondenseSpec> {
        None
    }

    open spec fn spec_has_probe(&self) -> bool {
        false
    }

    open spec fn spec_probe(&self, bytes: Seq<u8>, ctx: Context) -> Option<u8> {
        None
    }

    open spec fn spec_predecessors(&self) -> Seq<ProtocolName> {
        Seq::empty()
    }

    fn name(&self) -> (r: ProtocolName) {
        "ftp"
    }

    fn parse(&self, bytes: &[u8], ctx: &ParseCtx) -> (r: Result<ParsedLayer, ParseError>) {
        let (line, header_len) = match text::split_line(bytes) {
            Some(l) => l,
            None => {
                return Err(bytes::unterminated(bytes));
            },
        };
        let mut fields = FieldMap::new();
        if ctx.keys() {
            fields.insert(APP, Value::from("ftp"));
        }
        if let Some((code, rest)) = parse_reply_code(line) {
            if ctx.structural() {
                fields.insert(IS_REQUEST, Value::Bool(false));
                fields.insert(REPLY_CODE, Value::U64(code));
            }
            if ctx.full() {
                fields.insert(ARG, Value::Str(text::utf8_lossy(rest)));
            }
        } else if let Some((command, arg)) = parse_command(line) {
            if ctx.structural() {
                fields.insert(IS_REQUEST, Value::Bool(true));
                fields.insert(COMMAND, Value::Str(command));
            }
            if ctx.full() {
                fields.insert(ARG, Value::Str(text::utf8_lossy(arg)));
            }
        } else {
            return Err(ParseError::Malformed("not an FTP reply code or command line"));
        }
        Ok(ParsedLayer { header_len, fields, hint: Hint::Terminal })
    }

    fn claims(&self) -> (r: &'static [RouteId]) {
        &[RouteId::TcpPort(21)]
    }

    fn stream_identity(&self) -> (r: Option<StreamIdentity>) {
        identity::conversation(
            &[KeyField { a: APP, b: None }],
            &[
                RollupSpec { field: COMMAND, kind: RollupKind::Accumulate },
                RollupSpec { field: REPLY_CODE, kind: RollupKind::Accumulate },
            ],
        )
    }

    fn condense(&self) -> (r: Option<CondenseSpec>) {
        None
    }

    fn has_probe(&self) -> (r: bool) {
        false
    }

    fn probe(&self, bytes: &[u8], ctx: &ParseCtx) -> (r: Option<Confidence>) {
        None
    }

    fn expected_predecessors(&self) -> (r: &'static [ProtocolName]) {
        &[]
    }
}

} // verus!

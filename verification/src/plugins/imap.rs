//! IMAP (RFC 9051): one line, a tag and a second word. A second word that is a status
//! makes it a response; any other is a command. A line whose end is not in the
//! segment is truncated.
use vstd::prelude::*;

use crate::bytes::{self, ParseError};
use crate::identity::{
    self, CondenseSpec, Identity, KeyField, RollupKind, RollupSpec, StreamIdentity,
};
use crate::layer::{Confidence, Context, Hint, LayerPlugin, ParseCtx, Parsed, ParsedLayer, RouteId};
use crate::text;
use crate::value::{FieldMap, FieldName, Fields, ProtocolName, Value, ValueView};

verus! {

pub const APP: FieldName = "app";

pub const TAG: FieldName = "tag";

pub const COMMAND: FieldName = "command";

pub const IS_RESPONSE: FieldName = "is_response";

pub const RESPONSE_STATUS: FieldName = "response_status";

pub const ARGS: FieldName = "args";

pub open spec fn is_status(word: Seq<u8>) -> bool {
    word == text::ascii("OK"@) || word == text::ascii("NO"@) || word == text::ascii("BAD"@)
}

/// A line of at least two words.
pub open spec fn well_formed(line: Seq<u8>) -> bool {
    0 < text::word_end(line) < line.len() && text::word_end(text::after_word(line)) > 0
}

pub open spec fn tag(line: Seq<u8>) -> Seq<u8> {
    line.take(text::word_end(line))
}

/// The second word.
pub open spec fn second(line: Seq<u8>) -> Seq<u8> {
    text::after_word(line).take(text::word_end(text::after_word(line)))
}

/// What follows the second word.
pub open spec fn args(line: Seq<u8>) -> Seq<u8> {
    text::after_word(text::after_word(line))
}

pub open spec fn fields(line: Seq<u8>, ctx: Context) -> Fields {
    let f = Map::<Seq<char>, ValueView>::empty();
    let f = if ctx.keys() {
        f.insert(APP@, ValueView::Str("imap"@))
    } else {
        f
    };
    let f = if ctx.structural() {
        f
            .insert(TAG@, ValueView::Str(text::lossy_text(tag(line))))
            .insert(IS_RESPONSE@, ValueView::Bool(is_status(second(line))))
    } else {
        f
    };
    let f = if ctx.structural() && is_status(second(line)) {
        f.insert(RESPONSE_STATUS@, ValueView::Str(text::lossy_text(second(line))))
    } else {
        f
    };
    let f = if ctx.structural() && !is_status(second(line)) {
        f.insert(COMMAND@, ValueView::Str(text::lossy_text(text::uppercase(second(line)))))
    } else {
        f
    };
    if ctx.full() {
        f.insert(ARGS@, ValueView::Str(text::lossy_text(args(line))))
    } else {
        f
    }
}

/// The line at the start of `b`.
pub open spec fn message(b: Seq<u8>, ctx: Context) -> Result<Parsed, ParseError> {
    match text::first_line(b) {
        None => Err(bytes::no_end(b)),
        Some((line, end)) => if well_formed(line) {
            Ok(Parsed { header_len: end, fields: fields(line, ctx), hint: Hint::Terminal })
        } else {
            Err(ParseError::Malformed("not a tag + token IMAP line"))
        },
    }
}

struct Line<'a> {
    tag: &'a [u8],
    second: &'a [u8],
    args: &'a [u8],
}

fn split_tag_and_second_token<'a>(line: &'a [u8]) -> (r: Option<Line<'a>>)
    ensures
        r is Some <==> well_formed(line@),
        r matches Some(l) ==> l.tag@ == tag(line@) && l.second@ == second(line@) && l.args@ == args(
            line@,
        ),
{
    let (tag, rest) = text::split_word(line);
    let rest = match rest {
        Some(rest) => rest,
        None => {
            return None;
        },
    };
    if tag.len() == 0 {
        return None;
    }
    let (second, args) = text::split_word(rest);
    if second.len() == 0 {
        return None;
    }
    match args {
        Some(args) => Some(Line { tag, second, args }),
        None => {
            let end: usize = rest.len();
            let args = vstd::slice::slice_subrange(rest, end, end);
            assert(args@ =~= text::after_word(rest@));
            Some(Line { tag, second, args })
        },
    }
}

fn is_response_status(word: &[u8]) -> (r: bool)
    ensures
        r == is_status(word@),
{
    proof {
        reveal_strlit("OK");
        reveal_strlit("NO");
        reveal_strlit("BAD");
    }
    text::spells(word, "OK") || text::spells(word, "NO") || text::spells(word, "BAD")
}

pub struct Imap;

impl LayerPlugin for Imap {
    open spec fn spec_parse(&self, bytes: Seq<u8>, ctx: Context) -> Result<Parsed, ParseError> {
        message(bytes, ctx)
    }

    open spec fn spec_name(&self) -> Seq<char> {
        "imap"@
    }

    open spec fn spec_claims(&self) -> Seq<RouteId> {
        seq![RouteId::TcpPort(143)]
    }

    open spec fn spec_identity(&self) -> Option<Identity> {
        identity::conversation_of(
            seq![KeyField { a: APP, b: None }],
            seq![RollupSpec { field: COMMAND, kind: RollupKind::Accumulate }],
        )
    }

    open spec fn spec_condense(&self) -> Option<CondenseSpec> {
        None
    }

    open spec fn spec_has_probe(&self) -> bool {
        false
    }

    open spec fn spec_probe(&self, bytes: Seq<u8>, ctx: Context) -> Option<u8> {
        None
    }

    open spec fn spec_predecessors(&self) -> Seq<ProtocolName> {
        Seq::empty()
    }

    fn name(&self) -> (r: ProtocolName) {
        "imap"
    }

    fn parse(&self, bytes: &[u8], ctx: &ParseCtx) -> (r: Result<ParsedLayer, ParseError>) {
        let (line, header_len) = match text::split_line(bytes) {
            Some(l) => l,
            None => {
                return Err(bytes::unterminated(bytes));
            },
        };
        let line = match split_tag_and_second_token(line) {
            Some(l) => l,
            None => {
                return Err(ParseError::Malformed("not a tag + token IMAP line"));
            },
        };

        let mut fields = FieldMap::new();
        if ctx.keys() {
            fields.insert(APP, Value::from("imap"));
        }
        if ctx.structural() {
            fields.insert(TAG, Value::Str(text::utf8_lossy(line.tag)));
            if is_response_status(line.second) {
                fields.insert(IS_RESPONSE, Value::Bool(true));
                fields.insert(RESPONSE_STATUS, Value::Str(text::utf8_lossy(line.second)));
            } else {
                fields.insert(IS_RESPONSE, Value::Bool(false));
                let command = text::to_uppercase(line.second);
                fields.insert(COMMAND, Value::Str(text::utf8_lossy(command.as_slice())));
            }
        }
        if ctx.full() {
            fields.insert(ARGS, Value::Str(text::utf8_lossy(line.args)));
        }
        Ok(ParsedLayer { header_len, fields, hint: Hint::Terminal })
    }

    fn claims(&self) -> (r: &'static [RouteId]) {
        &[RouteId::TcpPort(143)]
    }

    fn stream_identity(&self) -> (r: Option<StreamIdentity>) {
        identity::conversation(
            &[KeyField { a: APP, b: None }],
            &[RollupSpec { field: COMMAND, kind: RollupKind::Accumulate }],
        )
    }

    fn condense(&self) -> (r: Option<CondenseSpec>) {
        None
    }

    fn has_probe(&self) -> (r: bool) {
        false
    }

    fn probe(&self, bytes: &[u8], ctx: &ParseCtx) -> (r: Option<Confidence>) {
        None
    }

    fn expected_predecessors(&self) -> (r: &'static [ProtocolName]) {
        &[]
    }
}

} // verus!

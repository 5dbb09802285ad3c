//! Protocols of lines: FTP and IMAP.
use vstd::prelude::*;

use crate::bytes::ParseError;
use crate::layer::{Context, Hint, LayerPlugin, Parsed};
use crate::plugins::ftp::{self, Ftp};
use crate::plugins::imap::{self, Imap};
use crate::plugins::wire;
use crate::text;
use crate::value::{Fields, ValueView};

verus! {

/// Whether a byte does not occur.
pub open spec fn lacks(b: Seq<u8>, x: u8) -> bool {
    forall|i: int| 0 <= i < b.len() ==> #[trigger] b[i] != x
}

/// A byte is found at its first place.
pub proof fn bytes_are_found(a: Seq<u8>, x: u8, rest: Seq<u8>, from: int)
    requires
        lacks(a, x),
        0 <= from <= a.len(),
    ensures
        text::find(a + seq![x] + rest, seq![x], from) == Some(a.len() as int),
    decreases a.len() - from,
{
    let b = a + seq![x] + rest;
    if from == a.len() {
        assert(b.subrange(from, from + 1) =~= seq![x]);
    } else {
        assert(b[from] == a[from]);
        assert(b.subrange(from, from + 1)[0] != seq![x][0]);
        bytes_are_found(a, x, rest, from + 1);
    }
}

/// A byte that does not occur is not found.
pub proof fn absent_bytes_are_not_found(a: Seq<u8>, x: u8, from: int)
    requires
        lacks(a, x),
        0 <= from <= a.len(),
    ensures
        text::find(a, seq![x], from) is None,
    decreases a.len() - from,
{
    if from < a.len() {
        assert(a[from] != x);
        assert(text::stands_at(a, seq![x], from) ==> a.subrange(from, from + 1)[0] == seq![x][0]);
        absent_bytes_are_not_found(a, x, from + 1);
    }
}

/// A line and its end: a line feed, mostly behind a carriage return.
pub open spec fn ended(line: Seq<u8>, cr: bool) -> Seq<u8> {
    if cr {
        line + seq![0x0D, 0x0A]
    } else {
        line + seq![0x0A]
    }
}

/// Whether this is one line.
pub open spec fn is_line(line: Seq<u8>, cr: bool) -> bool {
    lacks(line, 0x0A) && (!cr && line.len() > 0 ==> line.last() != 0x0D)
}

/// The first line is read without its end, and what follows it is left alone.
pub proof fn lines_are_read(line: Seq<u8>, cr: bool, rest: Seq<u8>)
    requires
        is_line(line, cr),
    ensures
        text::first_line(ended(line, cr) + rest) == Some((line, ended(line, cr).len() as int)),
{
    let b = ended(line, cr) + rest;
    if cr {
        let a = line + seq![0x0Du8];
        assert(lacks(a, 0x0A)) by {
            assert forall|i: int| 0 <= i < a.len() implies #[trigger] a[i] != 0x0A by {
                if i < line.len() {
                    assert(a[i] == line[i]);
                }
            }
        }
        assert(a + seq![0x0Au8] + rest =~= b);
        bytes_are_found(a, 0x0A, rest, 0);
        assert(b[a.len() - 1] == 0x0D);
        assert(b.take(a.len() - 1) =~= line);
    } else {
        assert(line + seq![0x0Au8] + rest =~= b);
        bytes_are_found(line, 0x0A, rest, 0);
        assert(b.take(line.len() as int) =~= line);
        if line.len() > 0 {
            assert(b[line.len() - 1] == line.last());
        }
    }
}

/// A word, and behind a blank what follows it.
pub open spec fn worded(word: Seq<u8>, after: Option<Seq<u8>>) -> Seq<u8> {
    match after {
        Some(a) => word + seq![0x20] + a,
        None => word,
    }
}

/// What follows a word; nothing where nothing does.
pub open spec fn behind(after: Option<Seq<u8>>) -> Seq<u8> {
    match after {
        Some(a) => a,
        None => Seq::empty(),
    }
}

/// A line is split at its first blank.
pub proof fn words_are_split(word: Seq<u8>, after: Option<Seq<u8>>)
    requires
        lacks(word, 0x20),
    ensures
        text::word_end(worded(word, after)) == word.len(),
        worded(word, after).take(word.len() as int) == word,
        text::after_word(worded(word, after)) == behind(after),
{
    let b = worded(word, after);
    assert(b.take(word.len() as int) =~= word);
    match after {
        Some(a) => {
            bytes_are_found(word, 0x20, a, 0);
            assert(b.skip(word.len() as int + 1) =~= a);
        },
        None => absent_bytes_are_not_found(word, 0x20, 0),
    }
}

/// The parts of an FTP reply: three digits and, behind a blank or the hyphen of a reply
/// that goes on, its text.
pub ghost struct FtpReply {
    pub digits: (u8, u8, u8),
    pub text: Option<(bool, Seq<u8>)>,
    pub cr: bool,
}

impl FtpReply {
    pub open spec fn line(self) -> Seq<u8> {
        let (a, b, c) = self.digits;
        seq![(48 + a) as u8, (48 + b) as u8, (48 + c) as u8] + match self.text {
            None => Seq::empty(),
            Some((goes_on, t)) => seq![
                if goes_on {
                    0x2Du8
                } else {
                    0x20u8
                },
            ] + t,
        }
    }

    pub open spec fn fits(self) -> bool {
        &&& self.digits.0 < 10 && self.digits.1 < 10 && self.digits.2 < 10
        &&& is_line(self.line(), self.cr)
    }

    pub open spec fn code(self) -> int {
        self.digits.0 * 100 + self.digits.1 * 10 + self.digits.2
    }

    pub open spec fn said(self) -> Seq<u8> {
        match self.text {
            None => Seq::empty(),
            Some((_, t)) => t,
        }
    }
}

/// An FTP reply is read as it was written.
pub proof fn ftp_replies_are_read(h: FtpReply, payload: Seq<u8>, ctx: Context)
    requires
        h.fits(),
    ensures
        Ftp.spec_parse(ended(h.line(), h.cr) + payload, ctx) == Ok::<Parsed, ParseError>(
            Parsed {
                header_len: ended(h.line(), h.cr).len() as int,
                fields: wire::shown(
                    ctx,
                    map!["app"@ => ValueView::Str("ftp"@)],
                    map![
                        "is_request"@ => ValueView::Bool(false),
                        "reply_code"@ => ValueView::U64(h.code() as u64),
                    ],
                    map!["arg"@ => ValueView::Str(text::lossy_text(h.said()))],
                ),
                hint: Hint::Terminal,
            },
        ),
{
    let line = h.line();
    lines_are_read(line, h.cr, payload);
    let (a, b, c) = h.digits;
    let code = seq![(48 + a) as u8, (48 + b) as u8, (48 + c) as u8];
    assert(line.take(3) =~= code);
    reveal_with_fuel(text::decimal, 4);
    let two = seq![(48 + a) as u8, (48 + b) as u8];
    let one = seq![(48 + a) as u8];
    assert(code.drop_last() =~= two && two.drop_last() =~= one && one.drop_last()
        =~= Seq::<u8>::empty());
    assert(text::decimal(code) == h.code());
    assert(text::all_digits(code));
    assert(ftp::reply_text(line) =~= h.said());
    assert(ftp::fields(line, ctx) =~= wire::shown(
        ctx,
        map!["app"@ => ValueView::Str("ftp"@)],
        map![
            "is_request"@ => ValueView::Bool(false),
            "reply_code"@ => ValueView::U64(h.code() as u64),
        ],
        map!["arg"@ => ValueView::Str(text::lossy_text(h.said()))],
    ));
}

/// The commands that are known.
pub open spec fn known_commands() -> Seq<&'static str> {
    seq![
        "USER", "PASS", "ACCT", "CWD", "CDUP", "SMNT", "QUIT", "REIN", "PORT", "PASV", "TYPE",
        "STRU", "MODE", "RETR", "STOR", "STOU", "APPE", "ALLO", "REST", "RNFR", "RNTO", "ABOR",
        "DELE", "RMD", "MKD", "PWD", "LIST", "NLST", "SITE", "SYST", "STAT", "HELP", "NOOP",
        "FEAT", "OPTS", "AUTH", "ADAT", "PBSZ", "PROT", "CCC", "MIC", "CONF", "ENC", "EPRT",
        "EPSV", "SIZE", "MDTM", "MLSD", "MLST", "LANG", "XPWD", "XCWD", "XMKD", "XRMD", "XCUP",
    ]
}

/// A word's letters in capitals.
pub open spec fn capitals(word: Seq<u8>) -> Seq<char> {
    Seq::new(
        word.len(),
        |i: int|
            if 'a' as int <= word[i] <= 'z' as int {
                (word[i] - 32) as char
            } else {
                word[i] as char
            },
    )
}

/// The parts of an FTP command, in letters of either case.
pub ghost struct FtpCommand {
    pub word: Seq<u8>,
    pub known: int,
    pub argument: Option<Seq<u8>>,
    pub cr: bool,
}

impl FtpCommand {
    pub open spec fn fits(self) -> bool {
        &&& self.word.len() > 0
        &&& forall|i: int|
            0 <= i < self.word.len() ==> 65 <= (#[trigger] self.word[i]) <= 90 || 97
                <= self.word[i] <= 122
        &&& 0 <= self.known < known_commands().len()
        &&& known_commands()[self.known]@ == capitals(self.word)
        &&& is_line(worded(self.word, self.argument), self.cr)
    }
}

/// An FTP command is read as it was written, in capitals.
pub proof fn ftp_commands_are_read(h: FtpCommand, payload: Seq<u8>, ctx: Context)
    requires
        h.fits(),
    ensures
        ({
            let line = worded(h.word, h.argument);
            Ftp.spec_parse(ended(line, h.cr) + payload, ctx) == Ok::<Parsed, ParseError>(
                Parsed {
                    header_len: ended(line, h.cr).len() as int,
                    fields: wire::shown(
                        ctx,
                        map!["app"@ => ValueView::Str("ftp"@)],
                        map![
                            "is_request"@ => ValueView::Bool(true),
                            "command"@ => ValueView::Str(capitals(h.word)),
                        ],
                        map!["arg"@ => ValueView::Str(text::lossy_text(behind(h.argument)))],
                    ),
                    hint: Hint::Terminal,
                },
            )
        }),
{
    let line = worded(h.word, h.argument);
    lines_are_read(line, h.cr, payload);
    assert(lacks(h.word, 0x20));
    words_are_split(h.word, h.argument);
    assert(line[0] == h.word[0]);
    assert(!ftp::is_reply(line)) by {
        if ftp::is_reply(line) {
            assert(text::is_digit(line.take(3)[0]));
            assert(line.take(3)[0] == line[0]);
        }
    }
    assert(ftp::command(line) =~= capitals(h.word)) by {
        assert forall|i: int| 0 <= i < h.word.len() implies ftp::command(line)[i] == capitals(
            h.word,
        )[i] by {
            assert(line[i] == h.word[i]);
        }
    }
    assert(ftp::commands() == known_commands());
    assert(ftp::commands()[h.known]@ == ftp::command(line));
    assert forall|i: int| 0 <= i < text::word_end(line) implies ftp::is_letter(
        #[trigger] line[i],
    ) by {
        assert(line[i] == h.word[i]);
    }
    assert(ftp::fields(line, ctx) =~= wire::shown(
        ctx,
        map!["app"@ => ValueView::Str("ftp"@)],
        map![
            "is_request"@ => ValueView::Bool(true),
            "command"@ => ValueView::Str(capitals(h.word)),
        ],
        map!["arg"@ => ValueView::Str(text::lossy_text(behind(h.argument)))],
    ));
}

/// A word with its letters in capitals, as bytes.
pub open spec fn raised(word: Seq<u8>) -> Seq<u8> {
    Seq::new(
        word.len(),
        |i: int|
            if 97 <= word[i] <= 122 {
                (word[i] - 32) as u8
            } else {
                word[i]
            },
    )
}

/// Whether a word is one of the answers OK, NO and BAD.
pub open spec fn is_answer(word: Seq<u8>) -> bool {
    word == seq![79u8, 75] || word == seq![78u8, 79] || word == seq![66u8, 65, 68]
}

/// The parts of an IMAP line: a tag, a command or an answer, and what follows.
pub ghost struct ImapLine {
    pub tag: Seq<u8>,
    pub second: Seq<u8>,
    pub args: Option<Seq<u8>>,
    pub cr: bool,
}

impl ImapLine {
    pub open spec fn line(self) -> Seq<u8> {
        worded(self.tag, Some(worded(self.second, self.args)))
    }

    pub open spec fn fits(self) -> bool {
        &&& self.tag.len() > 0 && lacks(self.tag, 0x20)
        &&& self.second.len() > 0 && lacks(self.second, 0x20)
        &&& is_line(self.line(), self.cr)
    }

    /// What is to be read of it.
    pub open spec fn told(self, ctx: Context) -> Fields {
        let answer = is_answer(self.second);
        let keys = map!["app"@ => ValueView::Str("imap"@)];
        let structure = map![
            "tag"@ => ValueView::Str(text::lossy_text(self.tag)),
            "is_response"@ => ValueView::Bool(answer),
        ];
        let status = ValueView::Str(text::lossy_text(self.second));
        let structure = wire::with(structure, answer, "response_status"@, status);
        let command = ValueView::Str(text::lossy_text(raised(self.second)));
        let structure = wire::with(structure, !answer, "command"@, command);
        let others = map!["args"@ => ValueView::Str(text::lossy_text(behind(self.args)))];
        wire::shown(ctx, keys, structure, others)
    }
}

/// An IMAP line is read as it was written; a second word that is OK, NO or BAD makes it a
/// response, any other is a command, in capitals.
pub proof fn imap_lines_are_read(h: ImapLine, payload: Seq<u8>, ctx: Context)
    requires
        h.fits(),
    ensures
        Imap.spec_parse(ended(h.line(), h.cr) + payload, ctx) == Ok::<Parsed, ParseError>(
            Parsed {
                header_len: ended(h.line(), h.cr).len() as int,
                fields: h.told(ctx),
                hint: Hint::Terminal,
            },
        ),
{
    let line = h.line();
    let rest = worded(h.second, h.args);
    lines_are_read(line, h.cr, payload);
    words_are_split(h.tag, Some(rest));
    words_are_split(h.second, h.args);
    reveal_strlit("OK");
    reveal_strlit("NO");
    reveal_strlit("BAD");
    assert(text::ascii("OK"@) =~= seq![79u8, 75]);
    assert(text::ascii("NO"@) =~= seq![78u8, 79]);
    assert(text::ascii("BAD"@) =~= seq![66u8, 65, 68]);
    assert(text::uppercase(h.second) =~= raised(h.second));
    assert(imap::second(line) == h.second);
    assert(imap::fields(line, ctx) =~= h.told(ctx));
}

} // verus!

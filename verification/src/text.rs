//! Text helpers: string comparison, character accumulation and the decoding of
//! wire bytes into text.
use vstd::prelude::*;

verus! {

/// `String::push` appends one character at the end.
pub assume_specification[ String::push ](s: &mut String, c: char)
    ensures
        final(s)@ == old(s)@.push(c),
;

/// What `String::from_utf8_lossy` makes of a byte string: text in which every
/// ill-formed part is replaced by U+FFFD.
pub uninterp spec fn lossy_text(bytes: Seq<u8>) -> Seq<char>;

/// Calls `String::from_utf8_lossy`. On well-formed UTF-8 the result is the
/// decoded text; on anything else it is only named.
#[verifier::external_body]
pub(crate) fn utf8_lossy(bytes: &[u8]) -> (r: String)
    ensures
        r@ == lossy_text(bytes@),
        vstd::utf8::valid_utf8(bytes@) ==> r@ == vstd::utf8::decode_utf8(bytes@),
{
    String::from_utf8_lossy(bytes).into_owned()
}

/// Calls `std::str::from_utf8`, which succeeds exactly on well-formed UTF-8 and
/// then yields the decoded text.
#[verifier::external_body]
pub(crate) fn utf8_checked(bytes: &[u8]) -> (r: Option<String>)
    ensures
        r is Some <==> vstd::utf8::valid_utf8(bytes@),
        r matches Some(s) ==> s@ == vstd::utf8::decode_utf8(bytes@),
{
    match std::str::from_utf8(bytes) {
        Ok(s) => Some(String::from(s)),
        Err(_) => None,
    }
}

/// Whether two byte strings are equal.
pub fn bytes_eq(a: &[u8], b: &[u8]) -> (r: bool)
    ensures
        r == (a@ == b@),
{
    if a.len() != b.len() {
        return false;
    }
    let n: usize = a.len();
    let mut i: usize = 0;
    while i < n
        invariant
            n == a@.len(),
            a@.len() == b@.len(),
            i <= n,
            forall|j: int| 0 <= j < i ==> a@[j] == b@[j],
        decreases n - i,
    {
        if a[i] != b[i] {
            return false;
        }
        i = i + 1;
    }
    assert(a@ =~= b@);
    true
}

/// Whether two strings hold the same characters.
pub fn str_eq(a: &str, b: &str) -> (r: bool)
    ensures
        r == (a@ == b@),
{
    proof {
        vstd::utf8::encode_utf8_decode_utf8(a@);
        vstd::utf8::encode_utf8_decode_utf8(b@);
    }
    bytes_eq(a.as_bytes(), b.as_bytes())
}

/// An owned copy of a string.
pub fn owned(s: &str) -> (r: String)
    ensures
        r@ == s@,
{
    s.to_owned()
}

/// A visible ASCII character, or a space.
pub open spec fn printable(b: u8) -> bool {
    0x20 <= b <= 0x7E
}

/// A visible ASCII character.
pub open spec fn graphic(b: u8) -> bool {
    0x21 <= b <= 0x7E
}

/// Display text of a byte string that may hold anything: printable ASCII
/// (spaces included) as it is, every other byte as `?`.
pub open spec fn display_text(bytes: Seq<u8>) -> Seq<char> {
    Seq::new(
        bytes.len(),
        |i: int|
            if printable(bytes[i]) {
                bytes[i] as char
            } else {
                '?'
            },
    )
}

/// Computes [`display_text`].
pub fn decode_display(bytes: &[u8]) -> (r: String)
    ensures
        r@ == display_text(bytes@),
{
    let mut out = String::new();
    let n: usize = bytes.len();
    let mut i: usize = 0;
    while i < n
        invariant
            n == bytes@.len(),
            i <= n,
            out@ == display_text(bytes@).take(i as int),
        decreases n - i,
    {
        let b: u8 = bytes[i];
        if b >= 0x20 && b <= 0x7E {
            out.push(b as char);
        } else {
            out.push('?');
        }
        i = i + 1;
        assert(display_text(bytes@).take(i as int) =~= display_text(bytes@).take(i - 1).push(
            display_text(bytes@)[i - 1],
        ));
    }
    assert(display_text(bytes@).take(n as int) =~= display_text(bytes@));
    out
}

/// The character of a digit below sixteen.
pub open spec fn digit(d: int) -> char {
    if d < 10 {
        (0x30 + d) as u8 as char
    } else {
        (0x57 + d) as u8 as char
    }
}

/// `n` in the given base, without leading zeros.
pub open spec fn numeral(n: int, base: int) -> Seq<char>
    decreases n,
{
    if base < 2 || n < base {
        seq![digit(n)]
    } else {
        proof {
            assert(0 <= n / base < n) by (nonlinear_arith)
                requires
                    2 <= base <= n,
            ;
        }
        numeral(n / base, base).push(digit(n % base))
    }
}

/// Appends `n` in the given base.
pub fn push_numeral(out: &mut String, n: u16, base: u16)
    requires
        2 <= base <= 16,
    ensures
        final(out)@ == old(out)@ + numeral(n as int, base as int),
    decreases n,
{
    if n >= base {
        assert(n / base < n) by (nonlinear_arith)
            requires
                2 <= base <= n,
        ;
        push_numeral(out, n / base, base);
    }
    assert(0 <= n % base < base) by (nonlinear_arith)
        requires
            2 <= base,
    ;
    assert(n < base ==> n % base == n) by (nonlinear_arith)
        requires
            2 <= base,
    ;
    let d: u8 = (n % base) as u8;
    if d < 10 {
        out.push((0x30u8 + d) as char);
    } else {
        out.push((0x57u8 + d) as char);
    }
    assert(out@ =~= old(out)@ + numeral(n as int, base as int));
}

/// The bytes of ASCII text.
pub open spec fn ascii(text: Seq<char>) -> Seq<u8> {
    Seq::new(text.len(), |i: int| text[i] as u8)
}

/// Whether `bytes` spell the ASCII text `word`.
pub fn spells(bytes: &[u8], word: &str) -> (r: bool)
    requires
        vstd::utf8::is_ascii_chars(word@),
    ensures
        r == (bytes@ == ascii(word@)),
{
    proof {
        vstd::utf8::is_ascii_chars_encode_utf8(word@);
    }
    assert(vstd::utf8::encode_utf8(word@) =~= ascii(word@));
    bytes_eq(bytes, word.as_bytes())
}

/// Whether `pattern` stands at `at` in `b`.
pub open spec fn stands_at(b: Seq<u8>, pattern: Seq<u8>, at: int) -> bool {
    0 <= at && at + pattern.len() <= b.len() && b.subrange(at, at + pattern.len()) == pattern
}

/// Computes [`stands_at`].
pub fn is_at(b: &[u8], pattern: &[u8], at: usize) -> (r: bool)
    requires
        at <= b@.len(),
    ensures
        r == stands_at(b@, pattern@, at as int),
{
    if b.len() - at < pattern.len() {
        return false;
    }
    bytes_eq(vstd::slice::slice_subrange(b, at, at + pattern.len()), pattern)
}

/// The first place from `from` on at which `pattern` stands.
pub open spec fn find(b: Seq<u8>, pattern: Seq<u8>, from: int) -> Option<int>
    decreases b.len() - from,
{
    if from < 0 || from >= b.len() {
        None
    } else if stands_at(b, pattern, from) {
        Some(from)
    } else {
        find(b, pattern, from + 1)
    }
}

/// Computes [`find`].
pub fn position(b: &[u8], pattern: &[u8], from: usize) -> (r: Option<usize>)
    requires
        from <= b@.len(),
    ensures
        match find(b@, pattern@, from as int) {
            Some(i) => r is Some && r->0 == i,
            None => r is None,
        },
        r matches Some(i) ==> from <= i && i + pattern@.len() <= b@.len(),
{
    let n: usize = b.len();
    let mut i: usize = from;
    while i < n
        invariant
            n == b@.len(),
            from <= i <= n,
            find(b@, pattern@, from as int) == find(b@, pattern@, i as int),
        decreases n - i,
    {
        if is_at(b, pattern, i) {
            return Some(i);
        }
        i = i + 1;
    }
    None
}

/// A lower-case ASCII letter's capital; any other byte as it is.
pub open spec fn upper(b: u8) -> u8 {
    if 0x61 <= b <= 0x7A {
        (b - 0x20) as u8
    } else {
        b
    }
}

/// `b` with its ASCII letters in capitals.
pub open spec fn uppercase(b: Seq<u8>) -> Seq<u8> {
    Seq::new(b.len(), |i: int| upper(b[i]))
}

/// Computes [`uppercase`].
pub fn to_uppercase(b: &[u8]) -> (r: Vec<u8>)
    ensures
        r@ == uppercase(b@),
{
    let n: usize = b.len();
    let mut out: Vec<u8> = Vec::new();
    let mut i: usize = 0;
    while i < n
        invariant
            n == b@.len(),
            i <= n,
            out@ == uppercase(b@).take(i as int),
        decreases n - i,
    {
        let c: u8 = b[i];
        if c >= 0x61 && c <= 0x7A {
            out.push(c - 0x20);
        } else {
            out.push(c);
        }
        i = i + 1;
        assert(uppercase(b@).take(i as int) =~= uppercase(b@).take(i - 1).push(
            uppercase(b@)[i - 1],
        ));
    }
    assert(uppercase(b@).take(n as int) =~= uppercase(b@));
    out
}

pub open spec fn is_digit(b: u8) -> bool {
    0x30 <= b <= 0x39
}

/// Whether every byte is an ASCII digit.
pub open spec fn all_digits(b: Seq<u8>) -> bool {
    forall|i: int| 0 <= i < b.len() ==> is_digit(#[trigger] b[i])
}

/// Computes [`all_digits`].
pub fn only_digits(b: &[u8]) -> (r: bool)
    ensures
        r == all_digits(b@),
{
    let n: usize = b.len();
    let mut i: usize = 0;
    while i < n
        invariant
            n == b@.len(),
            i <= n,
            forall|j: int| 0 <= j < i ==> is_digit(#[trigger] b@[j]),
        decreases n - i,
    {
        if b[i] < 0x30 || b[i] > 0x39 {
            return false;
        }
        i = i + 1;
    }
    true
}

/// The number that decimal digits spell.
pub open spec fn decimal(digits: Seq<u8>) -> int
    decreases digits.len(),
{
    if digits.len() == 0 {
        0
    } else {
        decimal(digits.drop_last()) * 10 + (digits.last() - 0x30)
    }
}

/// `n`, or the largest `u64` where `n` is larger.
pub open spec fn capped(n: int) -> u64 {
    if n > u64::MAX {
        u64::MAX
    } else {
        n as u64
    }
}

/// The number that decimal digits spell, capped.
pub fn read_decimal(digits: &[u8]) -> (r: u64)
    requires
        all_digits(digits@),
    ensures
        r == capped(decimal(digits@)),
{
    let n: usize = digits.len();
    let mut value: u64 = 0;
    let mut i: usize = 0;
    while i < n
        invariant
            n == digits@.len(),
            i <= n,
            all_digits(digits@),
            0 <= decimal(digits@.take(i as int)),
            value == capped(decimal(digits@.take(i as int))),
        decreases n - i,
    {
        assert(is_digit(digits@[i as int]));
        assert(digits@.take(i + 1).drop_last() =~= digits@.take(i as int));
        let next: u128 = value as u128 * 10 + (digits[i] - 0x30) as u128;
        if next > u64::MAX as u128 {
            value = u64::MAX;
        } else {
            value = next as u64;
        }
        i = i + 1;
    }
    assert(digits@.take(n as int) =~= digits@);
    value
}

/// The line that `b` begins with, and where the next one starts: up to a line
/// feed, less a carriage return before it.
pub open spec fn first_line(b: Seq<u8>) -> Option<(Seq<u8>, int)> {
    match find(b, seq![0x0Au8], 0) {
        Some(i) => if i > 0 && b[i - 1] == 0x0D {
            Some((b.take(i - 1), i + 1))
        } else {
            Some((b.take(i), i + 1))
        },
        None => None,
    }
}

/// Computes [`first_line`].
pub fn split_line<'a>(b: &'a [u8]) -> (r: Option<(&'a [u8], usize)>)
    ensures
        match first_line(b@) {
            Some((line, end)) => r matches Some((l, e)) && l@ == line && e == end,
            None => r is None,
        },
{
    let feed: &[u8] = &[0x0A];
    assert(feed@ =~= seq![0x0Au8]);
    let i: usize = match position(b, feed, 0) {
        Some(i) => i,
        None => {
            return None;
        },
    };
    let len: usize = if i > 0 && b[i - 1] == 0x0D {
        i - 1
    } else {
        i
    };
    let line = vstd::slice::slice_subrange(b, 0, len);
    assert(line@ =~= b@.take(len as int));
    Some((line, i + 1))
}

/// Where the first space stands, or the length.
pub open spec fn word_end(b: Seq<u8>) -> int {
    match find(b, seq![0x20u8], 0) {
        Some(i) => i,
        None => b.len() as int,
    }
}

/// What follows the first space; nothing where there is none.
pub open spec fn after_word(b: Seq<u8>) -> Seq<u8> {
    if word_end(b) < b.len() {
        b.skip(word_end(b) + 1)
    } else {
        Seq::empty()
    }
}

/// Splits at the first space: the word before it, and what follows it if there
/// is one.
pub fn split_word<'a>(b: &'a [u8]) -> (r: (&'a [u8], Option<&'a [u8]>))
    ensures
        r.0@ == b@.take(word_end(b@)),
        r.1 is Some <==> word_end(b@) < b@.len(),
        r.1 matches Some(rest) ==> rest@ == after_word(b@),
        0 <= word_end(b@) <= b@.len(),
{
    let space: &[u8] = &[0x20];
    assert(space@ =~= seq![0x20u8]);
    match position(b, space, 0) {
        Some(i) => {
            let n: usize = b.len();
            let word = vstd::slice::slice_subrange(b, 0, i);
            let rest = vstd::slice::slice_subrange(b, i + 1, n);
            assert(word@ =~= b@.take(i as int));
            assert(rest@ =~= b@.skip(i + 1));
            (word, Some(rest))
        },
        None => {
            assert(b@ =~= b@.take(b@.len() as int));
            (b, None)
        },
    }
}

/// Text of visible characters and spaces is shown as it is, and whatever else stands in
/// between as a question mark, without moving anything.
pub proof fn text_is_shown(words: Seq<char>, i: int, rest: Seq<u8>)
    requires
        forall|j: int| 0 <= j < words.len() ==> ' ' <= #[trigger] words[j] <= '~',
    ensures
        display_text(ascii(words)) == words,
        display_text(ascii(words) + rest) == words + display_text(rest),
        0 <= i < rest.len() && (rest[i] < 32 || rest[i] > 126) ==> display_text(rest)[i] == '?',
{
    assert forall|j: int| 0 <= j < words.len() implies display_text(ascii(words))[j]
        == words[j] by {
        assert(' ' <= words[j] <= '~');
    }
    assert(display_text(ascii(words)) =~= words);
    assert(display_text(ascii(words) + rest) =~= words + display_text(rest));
}

} // verus!

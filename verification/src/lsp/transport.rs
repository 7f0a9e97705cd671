//! JSON-RPC message framing for the Language Server Protocol.
//!
//! Each message is a JSON body preceded by a `Content-Length` header and an
//! empty line, per the base protocol. The caller reads and writes the bytes;
//! this module builds the header and reads the header lines.

use vstd::prelude::*;
use vstd::string::*;

use crate::text::{decimal, decimal_text, lemma_decimal_digits, push_text, same_text};

verus! {

/// The header that precedes a body of `len` bytes, with the empty line that
/// ends the headers.
pub open spec fn header_text(len: nat) -> Seq<char> {
    "Content-Length: "@ + decimal(len) + "\r\n\r\n"@
}

/// The header that precedes a body of `len` bytes.
pub fn frame_header(len: usize) -> (r: String)
    ensures
        r@ == header_text(len as nat),
{
    let mut s = String::from_str("Content-Length: ");
    let n = decimal_text(len as u64);
    push_text(&mut s, n.as_str());
    push_text(&mut s, "\r\n\r\n");
    s
}

/// `char::is_whitespace`: the characters of Unicode's `White_Space` property.
pub open spec fn is_white_space(c: char) -> bool {
    c == '\t' || c == '\n' || c == '\u{0B}' || c == '\u{0C}' || c == '\r' || c == ' ' || c
        == '\u{85}' || c == '\u{A0}' || c == '\u{1680}' || ('\u{2000}' <= c && c <= '\u{200A}')
        || c == '\u{2028}' || c == '\u{2029}' || c == '\u{202F}' || c == '\u{205F}' || c
        == '\u{3000}'
}

/// `s` without its leading white space.
pub open spec fn trim_start(s: Seq<char>) -> Seq<char>
    decreases s.len(),
{
    if s.len() > 0 && is_white_space(s[0]) {
        trim_start(s.drop_first())
    } else {
        s
    }
}

/// `s` without its trailing white space.
pub open spec fn trim_end(s: Seq<char>) -> Seq<char>
    decreases s.len(),
{
    if s.len() > 0 && is_white_space(s.last()) {
        trim_end(s.drop_last())
    } else {
        s
    }
}

/// `str::trim`: `s` without leading and trailing white space.
pub open spec fn trim(s: Seq<char>) -> Seq<char> {
    trim_end(trim_start(s))
}

/// `s` without its trailing carriage returns and line feeds.
pub open spec fn trim_line_end(s: Seq<char>) -> Seq<char>
    decreases s.len(),
{
    if s.len() > 0 && (s.last() == '\r' || s.last() == '\n') {
        trim_line_end(s.drop_last())
    } else {
        s
    }
}

/// The value of a string of decimal digits.
pub open spec fn decimal_value(d: Seq<char>) -> int
    decreases d.len(),
{
    if d.len() == 0 {
        0
    } else {
        10 * decimal_value(d.drop_last()) + (d.last() as int - 48)
    }
}

pub open spec fn all_digits(d: Seq<char>) -> bool {
    forall|i: int| 0 <= i < d.len() ==> '0' <= #[trigger] d[i] <= '9'
}

/// `usize::from_str`: an optional `+`, then one or more decimal digits whose
/// value fits in a `usize`.
pub open spec fn parse_usize(s: Seq<char>) -> Option<usize> {
    let d = if s.len() > 0 && s[0] == '+' {
        s.drop_first()
    } else {
        s
    };
    if d.len() > 0 && all_digits(d) && decimal_value(d) <= usize::MAX {
        Some(decimal_value(d) as usize)
    } else {
        None
    }
}

/// What one header line tells.
#[derive(Debug, Clone, Copy, PartialEq, Eq, Structural)]
pub enum HeaderLine {
    /// The empty line that ends the headers.
    End,
    /// A `Content-Length` header with its value.
    ContentLength(usize),
    /// Any other header.
    Other,
}

/// Why a message could not be framed.
#[derive(Debug, Clone, Copy, PartialEq, Eq, Structural)]
pub enum FrameError {
    /// The `Content-Length` header's value is not a number.
    InvalidContentLength,
    /// The headers ended without a `Content-Length`.
    MissingContentLength,
}

/// What a header line tells: the line, without its line ending, is empty at
/// the end of the headers; `Content-Length:` introduces the body's length.
pub open spec fn header_line_spec(line: Seq<char>) -> Result<HeaderLine, FrameError> {
    let header = trim_line_end(line);
    let prefix = "Content-Length:"@;
    if header.len() == 0 {
        Ok(HeaderLine::End)
    } else if header.len() >= prefix.len() && header.take(prefix.len() as int) == prefix {
        match parse_usize(trim(header.skip(prefix.len() as int))) {
            Some(n) => Ok(HeaderLine::ContentLength(n)),
            None => Err(FrameError::InvalidContentLength),
        }
    } else {
        Ok(HeaderLine::Other)
    }
}

fn white_space(c: char) -> (r: bool)
    ensures
        r == is_white_space(c),
{
    c == '\t' || c == '\n' || c == '\u{0B}' || c == '\u{0C}' || c == '\r' || c == ' ' || c
        == '\u{85}' || c == '\u{A0}' || c == '\u{1680}' || ('\u{2000}' <= c && c <= '\u{200A}')
        || c == '\u{2028}' || c == '\u{2029}' || c == '\u{202F}' || c == '\u{205F}' || c
        == '\u{3000}'
}

/// `str::trim`.
pub fn trim_text(s: &str) -> (r: &str)
    ensures
        r@ == trim(s@),
{
    let len = s.unicode_len();
    let mut start: usize = 0;
    assert(s@.skip(0) =~= s@);
    while start < len && white_space(s.get_char(start))
        invariant
            len == s@.len(),
            start <= len,
            trim_start(s@) == trim_start(s@.skip(start as int)),
        decreases len - start,
    {
        assert(s@.skip(start as int).drop_first() =~= s@.skip(start + 1));
        start = start + 1;
    }
    assert(trim_start(s@) == s@.skip(start as int)) by {
        let t = s@.skip(start as int);
        if t.len() > 0 {
            assert(t[0] == s@[start as int]);
        }
    }
    let mut end: usize = len;
    while end > start && white_space(s.get_char(end - 1))
        invariant
            len == s@.len(),
            start <= end <= len,
            trim(s@) == trim_end(s@.subrange(start as int, end as int)),
        decreases end,
    {
        assert(s@.subrange(start as int, end as int).drop_last() =~= s@.subrange(
            start as int,
            end - 1,
        ));
        end = end - 1;
    }
    assert(trim(s@) == s@.subrange(start as int, end as int)) by {
        let t = s@.subrange(start as int, end as int);
        if t.len() > 0 {
            assert(t.last() == s@[end - 1]);
        }
    }
    s.substring_char(start, end)
}

/// `str::trim_end_matches(['\r', '\n'])`.
fn trim_line_end_text(s: &str) -> (r: &str)
    ensures
        r@ == trim_line_end(s@),
{
    let len = s.unicode_len();
    let mut end: usize = len;
    assert(s@.subrange(0, len as int) =~= s@);
    while end > 0 && (s.get_char(end - 1) == '\r' || s.get_char(end - 1) == '\n')
        invariant
            len == s@.len(),
            end <= len,
            trim_line_end(s@) == trim_line_end(s@.subrange(0, end as int)),
        decreases end,
    {
        assert(s@.subrange(0, end as int).drop_last() =~= s@.subrange(0, end - 1));
        end = end - 1;
    }
    assert(trim_line_end(s@) == s@.subrange(0, end as int)) by {
        let t = s@.subrange(0, end as int);
        if t.len() > 0 {
            assert(t.last() == s@[end - 1]);
        }
    }
    s.substring_char(0, end)
}

proof fn lemma_decimal_value_monotone(d: Seq<char>, k: int)
    requires
        all_digits(d),
        0 <= k <= d.len(),
    ensures
        decimal_value(d.take(k)) <= decimal_value(d),
        decimal_value(d) >= 0,
    decreases d.len(),
{
    if d.len() > 0 {
        let p = d.drop_last();
        assert(all_digits(p));
        if k == d.len() {
            assert(d.take(k) =~= d);
            lemma_decimal_value_monotone(p, 0);
        } else {
            assert(p.take(k) =~= d.take(k));
            lemma_decimal_value_monotone(p, k);
        }
    } else {
        assert(d.take(k) =~= d);
    }
}

/// `usize::from_str`.
pub fn parse_usize_text(s: &str) -> (r: Option<usize>)
    ensures
        r == parse_usize(s@),
{
    let len = s.unicode_len();
    let start: usize = if len > 0 && s.get_char(0) == '+' {
        1
    } else {
        0
    };
    let ghost d = s@.skip(start as int);
    assert(d =~= (if s@.len() > 0 && s@[0] == '+' {
        s@.drop_first()
    } else {
        s@
    }));
    if start >= len {
        return None;
    }
    let mut value: usize = 0;
    let mut i = start;
    while i < len
        invariant
            len == s@.len(),
            start <= i <= len,
            d == s@.skip(start as int),
            d == (if s@.len() > 0 && s@[0] == '+' {
                s@.drop_first()
            } else {
                s@
            }),
            all_digits(s@.subrange(start as int, i as int)),
            value == decimal_value(s@.subrange(start as int, i as int)),
        decreases len - i,
    {
        let c = s.get_char(i);
        let ghost prev = s@.subrange(start as int, i as int);
        assert(d[i - start] == c);
        if c < '0' || c > '9' {
            assert(!all_digits(d));
            return None;
        }
        let digit = (c as u32 - 48) as usize;
        assert(s@.subrange(start as int, i + 1).drop_last() =~= prev);
        assert(all_digits(s@.subrange(start as int, i + 1)));
        if value > (usize::MAX - digit) / 10 {
            proof {
                assert(decimal_value(s@.subrange(start as int, i + 1)) > usize::MAX) by (nonlinear_arith)
                    requires
                        decimal_value(s@.subrange(start as int, i + 1)) == 10 * value + digit,
                        value > (usize::MAX - digit) / 10,
                        digit <= 9,
                ;
                let full = s@.subrange(start as int, len as int);
                assert(full =~= d);
                assert(full.take(i + 1 - start) =~= s@.subrange(start as int, i + 1));
                if all_digits(d) {
                    lemma_decimal_value_monotone(d, i + 1 - start);
                }
            }
            return None;
        }
        value = value * 10 + digit;
        i = i + 1;
    }
    assert(s@.subrange(start as int, len as int) =~= d);
    Some(value)
}

/// Read one header line.
pub fn header_line(line: &str) -> (r: Result<HeaderLine, FrameError>)
    ensures
        r == header_line_spec(line@),
{
    let header = trim_line_end_text(line);
    let len = header.unicode_len();
    proof {
        reveal_strlit("Content-Length:");
    }
    if len == 0 {
        return Ok(HeaderLine::End);
    }
    if len >= 15 && same_text(header.substring_char(0, 15), "Content-Length:") {
        let value = trim_text(header.substring_char(15, len));
        assert(header@.skip(15) =~= header@.subrange(15, len as int));
        match parse_usize_text(value) {
            Some(n) => Ok(HeaderLine::ContentLength(n)),
            None => Err(FrameError::InvalidContentLength),
        }
    } else {
        proof {
            if len >= 15 {
                assert(header@.take(15) =~= header@.subrange(0, 15));
            }
        }
        Ok(HeaderLine::Other)
    }
}

/// The length of the body once the headers have ended.
pub fn body_length(content_length: Option<usize>) -> (r: Result<usize, FrameError>)
    ensures
        r == match content_length {
            Some(n) => Ok::<usize, FrameError>(n),
            None => Err::<usize, FrameError>(FrameError::MissingContentLength),
        },
{
    match content_length {
        Some(n) => Ok(n),
        None => Err(FrameError::MissingContentLength),
    }
}

proof fn lemma_decimal_value_of_decimal(n: nat)
    ensures
        decimal_value(decimal(n)) == n,
        all_digits(decimal(n)),
    decreases n,
{
    lemma_decimal_digits(n);
    let d = (n % 10) as int;
    assert(crate::text::digit_char(d) as int == 48 + d);
    if n >= 10 {
        lemma_decimal_value_of_decimal(n / 10);
        assert(decimal(n).drop_last() =~= decimal(n / 10));
        assert(decimal(n).last() == crate::text::digit_char(d));
        assert(decimal_value(decimal(n).drop_last()) == (n / 10) as int);
        assert(decimal_value(decimal(n)) == 10 * ((n / 10) as int) + d);
    } else {
        assert(decimal_value(Seq::<char>::empty()) == 0);
        assert(decimal_value(decimal(n).drop_last()) == 0);
        assert(decimal(n).drop_last() =~= Seq::<char>::empty());
        assert(decimal(n).last() == crate::text::digit_char(n as int));
    }
}

/// The header written for a body of `len` bytes reads back as that length,
/// followed by the end of the headers: its first line (up to and including
/// the first line feed) gives the length, the second ends the headers.
pub proof fn lemma_header_round_trip(len: usize)
    ensures
        header_line_spec("Content-Length: "@ + decimal(len as nat) + "\r\n"@) == Ok::<
            HeaderLine,
            FrameError,
        >(HeaderLine::ContentLength(len)),
        header_line_spec("\r\n"@) == Ok::<HeaderLine, FrameError>(HeaderLine::End),
        header_text(len as nat) == ("Content-Length: "@ + decimal(len as nat) + "\r\n"@)
            + "\r\n"@,
{
    reveal_strlit("Content-Length: ");
    reveal_strlit("Content-Length:");
    reveal_strlit("\r\n");
    reveal_strlit("\r\n\r\n");
    let digits = decimal(len as nat);
    lemma_decimal_value_of_decimal(len as nat);
    let line = "Content-Length: "@ + digits + "\r\n"@;
    let body = "Content-Length: "@ + digits;
    assert(line.drop_last() =~= body + seq!['\r']);
    assert((body + seq!['\r']).drop_last() =~= body);
    assert(digits.len() > 0 && '0' <= digits.last() <= '9');
    assert(body.last() == digits.last());
    assert(trim_line_end(body + seq!['\r']) == trim_line_end(body));
    assert(trim_line_end(line) == body);
    assert(body.take(15) =~= "Content-Length:"@);
    let rest = body.skip(15);
    assert(rest =~= seq![' '] + digits);
    assert(rest.drop_first() =~= digits);
    assert('0' <= digits[0] <= '9');
    assert(trim_start(digits) == digits);
    assert(trim_start(rest) == digits);
    assert(trim_end(digits) == digits);
    assert(digits[0] != '+');
    let r2: Seq<char> = "\r\n"@;
    assert(r2 =~= seq!['\r', '\n']);
    assert(r2.drop_last() =~= seq!['\r']);
    assert(seq!['\r'].drop_last() =~= Seq::<char>::empty());
    assert(trim_line_end(Seq::<char>::empty()) =~= Seq::<char>::empty());
    assert(trim_line_end(seq!['\r']) =~= Seq::<char>::empty());
    assert(trim_line_end(r2) =~= Seq::<char>::empty());
    assert(header_text(len as nat) =~= line + "\r\n"@);
}

} // verus!

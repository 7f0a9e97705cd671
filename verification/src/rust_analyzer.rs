//! The file URIs exchanged with rust-analyzer, and the mapping of the
//! locations it returns.

use vstd::prelude::*;
use vstd::slice::slice_subrange;
use vstd::string::*;
use vstd::utf8::{decode_utf8, encode_utf8, is_ascii_chars, valid_utf8};

use crate::model::Location;
use crate::text::{push_char, push_text, same_text};

verus! {

/// Why a URI could not be decoded into a path.
#[derive(Debug, Clone, Copy, PartialEq, Eq, Structural)]
pub enum UriError {
    /// The URI does not start with `file://`.
    NotFileUri,
    /// The two bytes after a `%` are not valid UTF-8.
    EscapeNotUtf8,
    /// The two characters after a `%` are not a hexadecimal byte.
    InvalidPercentEncoding,
    /// The decoded bytes are not valid UTF-8.
    DecodedNotUtf8,
}

/// `std::str::from_utf8`: the text of `bytes` where they are valid UTF-8.
#[verifier::external_body]
fn utf8_text(bytes: &[u8]) -> (r: Option<&str>)
    ensures
        match r {
            Some(s) => valid_utf8(bytes@) && s@ == decode_utf8(bytes@),
            None => !valid_utf8(bytes@),
        },
{
    std::str::from_utf8(bytes).ok()
}

/// Bytes that a URI path carries as they are.
pub open spec fn unreserved(b: u8) -> bool {
    (0x41 <= b <= 0x5a) || (0x61 <= b <= 0x7a) || (0x30 <= b <= 0x39) || b == 0x2d || b == 0x2e
        || b == 0x5f || b == 0x7e || b == 0x2f
}

/// The upper-case hexadecimal digit of `d`.
pub open spec fn hex_upper(d: int) -> char {
    if d < 10 {
        (48 + d) as char
    } else {
        (55 + d) as char
    }
}

/// The encoding of one byte: itself if unreserved, else `%` and two
/// upper-case hexadecimal digits.
pub open spec fn encode_byte(b: u8) -> Seq<char> {
    if unreserved(b) {
        seq![b as char]
    } else {
        seq!['%', hex_upper((b / 16) as int), hex_upper((b % 16) as int)]
    }
}

/// The percent-encoding of a byte string.
pub open spec fn percent_encoded(bytes: Seq<u8>) -> Seq<char>
    decreases bytes.len(),
{
    if bytes.len() == 0 {
        seq![]
    } else {
        encode_byte(bytes[0]) + percent_encoded(bytes.drop_first())
    }
}

proof fn lemma_percent_encoded_concat(a: Seq<u8>, b: Seq<u8>)
    ensures
        percent_encoded(a + b) == percent_encoded(a) + percent_encoded(b),
    decreases a.len(),
{
    if a.len() == 0 {
        assert(a + b =~= b);
        assert(Seq::<char>::empty() + percent_encoded(b) =~= percent_encoded(b));
    } else {
        assert((a + b).drop_first() =~= a.drop_first() + b);
        lemma_percent_encoded_concat(a.drop_first(), b);
        assert(encode_byte(a[0]) + (percent_encoded(a.drop_first()) + percent_encoded(b)) =~= (
        encode_byte(a[0]) + percent_encoded(a.drop_first())) + percent_encoded(b));
    }
}

fn hex_digit_upper(d: u8) -> (c: char)
    requires
        d < 16,
    ensures
        c == hex_upper(d as int),
{
    if d < 10 {
        (48 + d) as char
    } else {
        (55 + d) as char
    }
}

/// Percent-encode `input`: every byte of its UTF-8 encoding but the
/// unreserved ones becomes `%XX`.
pub fn percent_encode(input: &str) -> (r: String)
    ensures
        r@ == percent_encoded(encode_utf8(input@)),
{
    let bytes = input.as_bytes();
    let mut encoded = String::new();
    let n = bytes.len();
    let mut i: usize = 0;
    while i < n
        invariant
            n == bytes@.len(),
            bytes@ == encode_utf8(input@),
            i <= n,
            encoded@ == percent_encoded(bytes@.take(i as int)),
        decreases n - i,
    {
        let byte = bytes[i];
        let ghost before = encoded@;
        if (0x41 <= byte && byte <= 0x5a) || (0x61 <= byte && byte <= 0x7a) || (0x30 <= byte
            && byte <= 0x39) || byte == 0x2d || byte == 0x2e || byte == 0x5f || byte == 0x7e
            || byte == 0x2f {
            push_char(&mut encoded, byte as char);
        } else {
            push_char(&mut encoded, '%');
            push_char(&mut encoded, hex_digit_upper(byte / 16));
            push_char(&mut encoded, hex_digit_upper(byte % 16));
        }
        proof {
            assert(bytes@.take(i + 1) =~= bytes@.take(i as int) + seq![byte]);
            lemma_percent_encoded_concat(bytes@.take(i as int), seq![byte]);
            assert(seq![byte].drop_first() =~= Seq::<u8>::empty());
            assert(percent_encoded(seq![byte].drop_first()) =~= Seq::<char>::empty());
            assert(encode_byte(byte) + Seq::<char>::empty() =~= encode_byte(byte));
            assert(percent_encoded(seq![byte]) =~= encode_byte(byte));
            assert(encoded@ =~= before + encode_byte(byte));
        }
        i = i + 1;
    }
    assert(bytes@.take(n as int) =~= bytes@);
    encoded
}

/// The value of a hexadecimal digit of either case.
pub open spec fn hex_value(c: char) -> Option<int> {
    if '0' <= c <= '9' {
        Some(c as int - 48)
    } else if 'a' <= c <= 'f' {
        Some(c as int - 87)
    } else if 'A' <= c <= 'F' {
        Some(c as int - 55)
    } else {
        None
    }
}

pub open spec fn all_hex(d: Seq<char>) -> bool {
    forall|i: int| 0 <= i < d.len() ==> (#[trigger] hex_value(d[i])) is Some
}

/// The value of a string of hexadecimal digits.
pub open spec fn hex_number(d: Seq<char>) -> int
    decreases d.len(),
{
    if d.len() == 0 {
        0
    } else {
        16 * hex_number(d.drop_last()) + hex_value(d.last())->0
    }
}

/// `u8::from_str_radix(s, 16)`: an optional `+`, then one or more
/// hexadecimal digits whose value fits in a byte.
pub open spec fn parse_hex_byte(s: Seq<char>) -> Option<u8> {
    let d = if s.len() > 0 && s[0] == '+' {
        s.drop_first()
    } else {
        s
    };
    if d.len() > 0 && all_hex(d) && hex_number(d) < 256 {
        Some(hex_number(d) as u8)
    } else {
        None
    }
}

/// The byte that the two bytes after a `%` stand for.
pub open spec fn escape_value(pair: Seq<u8>) -> Result<u8, UriError> {
    if !valid_utf8(pair) {
        Err(UriError::EscapeNotUtf8)
    } else {
        match parse_hex_byte(decode_utf8(pair)) {
            Some(v) => Ok(v),
            None => Err(UriError::InvalidPercentEncoding),
        }
    }
}

pub open spec fn prepend(p: Seq<u8>, r: Result<Seq<u8>, UriError>) -> Result<Seq<u8>, UriError> {
    match r {
        Ok(rest) => Ok(p + rest),
        Err(e) => Err(e),
    }
}

/// The bytes that a percent-encoded byte string stands for: `%` followed by
/// two more bytes is an escape, every other byte stands for itself.
pub open spec fn percent_decoded_bytes(bytes: Seq<u8>) -> Result<Seq<u8>, UriError>
    decreases bytes.len(),
{
    if bytes.len() == 0 {
        Ok(seq![])
    } else if bytes[0] == 0x25 && 3 <= bytes.len() {
        match escape_value(bytes.subrange(1, 3)) {
            Ok(v) => prepend(seq![v], percent_decoded_bytes(bytes.skip(3))),
            Err(e) => Err(e),
        }
    } else {
        prepend(seq![bytes[0]], percent_decoded_bytes(bytes.skip(1)))
    }
}

/// The text that a percent-encoded text stands for.
pub open spec fn percent_decoded(s: Seq<char>) -> Result<Seq<char>, UriError> {
    match percent_decoded_bytes(encode_utf8(s)) {
        Ok(b) => if valid_utf8(b) {
            Ok(decode_utf8(b))
        } else {
            Err(UriError::DecodedNotUtf8)
        },
        Err(e) => Err(e),
    }
}

fn hex_digit_of(c: char) -> (r: Option<u8>)
    ensures
        match r {
            Some(v) => hex_value(c) == Some(v as int),
            None => hex_value(c) is None,
        },
{
    if '0' <= c && c <= '9' {
        Some((c as u32 - 48) as u8)
    } else if 'a' <= c && c <= 'f' {
        Some((c as u32 - 87) as u8)
    } else if 'A' <= c && c <= 'F' {
        Some((c as u32 - 55) as u8)
    } else {
        None
    }
}

/// `u8::from_str_radix(s, 16)` for a string of at most two characters.
#[verifier::rlimit(30)]
fn parse_hex_pair(s: &str) -> (r: Option<u8>)
    requires
        s@.len() <= 2,
    ensures
        r == parse_hex_byte(s@),
{
    let len = s.unicode_len();
    let start: usize = if len > 0 && s.get_char(0) == '+' {
        1
    } else {
        0
    };
    let ghost d = s@.skip(start as int);
    assert(d =~= (if s@.len() > 0 && s@[0] == '+' {
        s@.drop_first()
    } else {
        s@
    }));
    if start >= len {
        return None;
    }
    let mut value: u32 = 0;
    let mut i = start;
    while i < len
        invariant
            len == s@.len(),
            len <= 2,
            start <= i <= len,
            d == s@.skip(start as int),
            d == (if s@.len() > 0 && s@[0] == '+' {
                s@.drop_first()
            } else {
                s@
            }),
            all_hex(s@.subrange(start as int, i as int)),
            value == hex_number(s@.subrange(start as int, i as int)),
            value < 256,
            i - start <= 1 ==> value < 16,
        decreases len - i,
    {
        let c = s.get_char(i);
        let ghost prev = s@.subrange(start as int, i as int);
        match hex_digit_of(c) {
            Some(v) => {
                assert(s@.subrange(start as int, i + 1).drop_last() =~= prev);
                value = value * 16 + v as u32;
            },
            None => {
                assert(d[i - start] == c);
                assert(hex_value(d[i - start]) is None);
                assert(!all_hex(d));
                return None;
            },
        }
        i = i + 1;
    }
    assert(s@.subrange(start as int, len as int) =~= d);
    Some(value as u8)
}

/// The bytes that `bytes` stand for once their escapes are decoded.
fn percent_decode_bytes(bytes: &[u8]) -> (r: Result<Vec<u8>, UriError>)
    ensures
        match r {
            Ok(v) => percent_decoded_bytes(bytes@) == Ok::<Seq<u8>, UriError>(v@),
            Err(e) => percent_decoded_bytes(bytes@) == Err::<Seq<u8>, UriError>(e),
        },
{
    let mut decoded: Vec<u8> = Vec::new();
    let n = bytes.len();
    let mut index: usize = 0;
    assert(bytes@.skip(0) =~= bytes@);
    assert(decoded@ + Seq::<u8>::empty() =~= decoded@);
    while index < n
        invariant
            n == bytes@.len(),
            index <= n,
            percent_decoded_bytes(bytes@) == prepend(
                decoded@,
                percent_decoded_bytes(bytes@.skip(index as int)),
            ),
        decreases n - index,
    {
        let ghost rest = bytes@.skip(index as int);
        let ghost before = decoded@;
        if bytes[index] == 0x25 && n - index >= 3 {
            let pair = slice_subrange(bytes, index + 1, index + 3);
            assert(pair@ =~= rest.subrange(1, 3));
            let text = match utf8_text(pair) {
                Some(t) => t,
                None => return Err(UriError::EscapeNotUtf8),
            };
            proof {
                vstd::utf8::encode_utf8_decode_utf8(text@);
                vstd::utf8::decode_utf8_encode_utf8(pair@);
            }
            assert(text@.len() <= 2) by {
                lemma_decoded_len(pair@);
            }
            let v = match parse_hex_pair(text) {
                Some(v) => v,
                None => return Err(UriError::InvalidPercentEncoding),
            };
            decoded.push(v);
            assert(rest.skip(3) =~= bytes@.skip(index + 3));
            index = index + 3;
        } else {
            decoded.push(bytes[index]);
            assert(rest.skip(1) =~= bytes@.skip(index + 1));
            index = index + 1;
        }
        assert(decoded@ =~= before + seq![decoded@.last()]);
        proof {
            lemma_prepend_assoc(before, seq![decoded@.last()], percent_decoded_bytes(
                bytes@.skip(index as int),
            ));
        }
    }
    assert(bytes@.skip(n as int) =~= Seq::<u8>::empty());
    assert(decoded@ + Seq::<u8>::empty() =~= decoded@);
    Ok(decoded)
}

proof fn lemma_prepend_assoc(a: Seq<u8>, b: Seq<u8>, r: Result<Seq<u8>, UriError>)
    ensures
        prepend(a, prepend(b, r)) == prepend(a + b, r),
{
    match r {
        Ok(x) => {
            assert(a + (b + x) =~= (a + b) + x);
        },
        Err(_) => {},
    }
}

proof fn lemma_decoded_len(b: Seq<u8>)
    requires
        valid_utf8(b),
    ensures
        decode_utf8(b).len() <= b.len(),
    decreases b.len(),
{
    broadcast use vstd::utf8::group_utf8_lib;

    if b.len() > 0 {
        let c = decode_utf8(b);
        vstd::utf8::decode_utf8_encode_utf8(b);
        vstd::utf8::encode_utf8_first_scalar(c);
        lemma_encode_len(c);
    }
}

proof fn lemma_encode_len(c: Seq<char>)
    ensures
        encode_utf8(c).len() >= c.len(),
    decreases c.len(),
{
    if c.len() > 0 {
        lemma_encode_len(c.drop_first());
        let s = vstd::utf8::encode_scalar(c[0] as u32);
        assert(s.len() >= 1) by {
            reveal_with_fuel(vstd::utf8::encode_scalar, 1);
        }
    }
}

/// Decode the percent-escapes of `input` into text.
pub fn percent_decode(input: &str) -> (r: Result<String, UriError>)
    ensures
        match r {
            Ok(s) => percent_decoded(input@) == Ok::<Seq<char>, UriError>(s@),
            Err(e) => percent_decoded(input@) == Err::<Seq<char>, UriError>(e),
        },
{
    let bytes = input.as_bytes();
    let decoded = percent_decode_bytes(bytes)?;
    match utf8_text(decoded.as_slice()) {
        Some(t) => Ok(String::from_str(t)),
        None => Err(UriError::DecodedNotUtf8),
    }
}

/// The `file://` URI of a path.
pub open spec fn file_uri(path: Seq<char>) -> Seq<char> {
    "file://"@ + percent_encoded(encode_utf8(path))
}

/// Encode a filesystem path as a `file://` URI.
pub fn encode_file_uri(path: &str) -> (r: String)
    ensures
        r@ == file_uri(path@),
{
    let mut uri = String::from_str("file://");
    let encoded = percent_encode(path);
    push_text(&mut uri, encoded.as_str());
    uri
}

/// The path that a `file://` URI stands for.
pub open spec fn uri_path(uri: Seq<char>) -> Result<Seq<char>, UriError> {
    if uri.len() >= 7 && uri.take(7) == "file://"@ {
        percent_decoded(uri.skip(7))
    } else {
        Err(UriError::NotFileUri)
    }
}

/// A URI that does not start with `file://` is refused as not a file URI;
/// one that does stands for the percent-decoding of the rest, which is
/// refused when the decoded bytes are not UTF-8, and otherwise is their text.
pub proof fn lemma_uri_path_cases(uri: Seq<char>)
    ensures
        !(uri.len() >= 7 && uri.take(7) == "file://"@) ==> uri_path(uri) == Err::<
            Seq<char>,
            UriError,
        >(UriError::NotFileUri),
        uri.len() >= 7 && uri.take(7) == "file://"@ ==> match percent_decoded_bytes(
            encode_utf8(uri.skip(7)),
        ) {
            Ok(b) => uri_path(uri) == (if valid_utf8(b) {
                Ok::<Seq<char>, UriError>(decode_utf8(b))
            } else {
                Err::<Seq<char>, UriError>(UriError::DecodedNotUtf8)
            }),
            Err(e) => uri_path(uri) == Err::<Seq<char>, UriError>(e),
        },
{
}

/// Decode a `file://` URI back into a filesystem path.
pub fn decode_file_uri(uri: &str) -> (r: Result<String, UriError>)
    ensures
        match r {
            Ok(p) => uri_path(uri@) == Ok::<Seq<char>, UriError>(p@),
            Err(e) => uri_path(uri@) == Err::<Seq<char>, UriError>(e),
        },
{
    proof {
        reveal_strlit("file://");
    }
    let len = uri.unicode_len();
    if len < 7 {
        return Err(UriError::NotFileUri);
    }
    let prefix = uri.substring_char(0, 7);
    assert(prefix@ =~= uri@.take(7));
    let same = same_text(prefix, "file://");
    if !same {
        return Err(UriError::NotFileUri);
    }
    let path = uri.substring_char(7, len);
    assert(path@ =~= uri@.skip(7));
    percent_decode(path)
}

/// The bytes of ASCII text are its characters, one each.
proof fn lemma_ascii_bytes(chars: Seq<char>)
    requires
        is_ascii_chars(chars),
    ensures
        encode_utf8(chars) == chars.map_values(|c: char| c as u8),
{
    vstd::utf8::is_ascii_chars_encode_utf8(chars);
    assert(encode_utf8(chars) =~= chars.map_values(|c: char| c as u8));
}

proof fn lemma_encoded_ascii(bytes: Seq<u8>)
    ensures
        is_ascii_chars(percent_encoded(bytes)),
    decreases bytes.len(),
{
    if bytes.len() > 0 {
        lemma_encoded_ascii(bytes.drop_first());
        let e = encode_byte(bytes[0]);
        let r = percent_encoded(bytes.drop_first());
        assert forall|i: int| 0 <= i < (e + r).len() implies '\0' <= #[trigger] (e + r)[i]
            <= '\u{7f}' by {
            if i >= e.len() {
                assert((e + r)[i] == r[i - e.len()]);
            }
        }
    }
}

/// How many bytes of `bytes` are escaped by percent-encoding.
pub open spec fn escaped_count(bytes: Seq<u8>) -> nat
    decreases bytes.len(),
{
    if bytes.len() == 0 {
        0
    } else {
        (if unreserved(bytes[0]) {
            0nat
        } else {
            1nat
        }) + escaped_count(bytes.drop_first())
    }
}

/// A percent-encoding is ASCII; each unreserved byte takes one character and
/// each other byte three, so the encoding is longer than the bytes by twice
/// the number of escaped bytes; bytes that are all unreserved encode as
/// themselves.
pub proof fn lemma_percent_encoded_shape(bytes: Seq<u8>)
    ensures
        is_ascii_chars(percent_encoded(bytes)),
        percent_encoded(bytes).len() == bytes.len() + 2 * escaped_count(bytes),
        (forall|i: int| 0 <= i < bytes.len() ==> unreserved(#[trigger] bytes[i]))
            ==> percent_encoded(bytes) == bytes.map_values(|b: u8| b as char),
    decreases bytes.len(),
{
    lemma_encoded_ascii(bytes);
    if bytes.len() > 0 {
        let rest = bytes.drop_first();
        lemma_percent_encoded_shape(rest);
        if forall|i: int| 0 <= i < bytes.len() ==> unreserved(#[trigger] bytes[i]) {
            assert(unreserved(bytes[0]));
            assert forall|i: int| 0 <= i < rest.len() implies unreserved(#[trigger] rest[i]) by {
                assert(rest[i] == bytes[i + 1]);
            }
            assert(bytes.map_values(|b: u8| b as char) =~= seq![bytes[0] as char]
                + rest.map_values(|b: u8| b as char));
        }
    } else {
        assert(bytes.map_values(|b: u8| b as char) =~= Seq::<char>::empty());
    }
}

proof fn lemma_byte_char_roundtrip(b: u8)
    requires
        b < 128,
    ensures
        (b as char) as u8 == b,
        (b as char) as int == b as int,
{
}

/// Decoding the bytes of an encoding gives back the encoded bytes.
proof fn lemma_decode_encoded(bytes: Seq<u8>)
    ensures
        percent_decoded_bytes(percent_encoded(bytes).map_values(|c: char| c as u8)) == Ok::<
            Seq<u8>,
            UriError,
        >(bytes),
    decreases bytes.len(),
{
    let e = percent_encoded(bytes).map_values(|c: char| c as u8);
    if bytes.len() == 0 {
        assert(e =~= Seq::<u8>::empty());
        assert(bytes =~= Seq::<u8>::empty());
    } else {
        let b = bytes[0];
        let rest = bytes.drop_first();
        lemma_decode_encoded(rest);
        let er = percent_encoded(rest).map_values(|c: char| c as u8);
        let piece = encode_byte(b).map_values(|c: char| c as u8);
        assert(e =~= piece + er);
        if unreserved(b) {
            lemma_byte_char_roundtrip(b);
            assert(e[0] == b);
            assert(e.skip(1) =~= er);
            assert(seq![b] + rest =~= bytes);
        } else {
            let hi = b / 16;
            let lo = b % 16;
            assert(e[0] == 0x25u8);
            assert(e.skip(3) =~= er);
            let pair = e.subrange(1, 3);
            let ph = hex_upper(hi as int) as u8;
            let pl = hex_upper(lo as int) as u8;
            assert(pair =~= seq![ph, pl]);
            lemma_hex_pair(b);
            assert(seq![b] + rest =~= bytes);
        }
    }
}

/// The two digits of a byte's escape decode to the byte.
proof fn lemma_hex_pair(b: u8)
    ensures
        escape_value(seq![hex_upper((b / 16) as int) as u8, hex_upper((b % 16) as int) as u8])
            == Ok::<u8, UriError>(b),
{
    let hi = hex_upper((b / 16) as int);
    let lo = hex_upper((b % 16) as int);
    let pair = seq![hi as u8, lo as u8];
    let chars = seq![hi, lo];
    assert(is_ascii_chars(chars));
    lemma_ascii_bytes(chars);
    assert(encode_utf8(chars) =~= pair);
    vstd::utf8::encode_utf8_valid_utf8(chars);
    vstd::utf8::encode_utf8_decode_utf8(chars);
    assert(decode_utf8(pair) == chars);
    assert(chars[0] != '+');
    let d = chars;
    assert(hex_value(hi) == Some((b / 16) as int));
    assert(hex_value(lo) == Some((b % 16) as int));
    assert(all_hex(d));
    assert(d.drop_last() =~= seq![hi]);
    assert(seq![hi].drop_last() =~= Seq::<char>::empty());
    assert(hex_number(Seq::<char>::empty()) == 0);
    assert(hex_number(seq![hi].drop_last()) == 0);
    assert(seq![hi].last() == hi);
    assert(hex_number(seq![hi]) == (b / 16) as int);
    assert(hex_number(d) == 16 * (b / 16) + b % 16);
}

/// Decoding the URI of a path gives back the path.
pub proof fn lemma_file_uri_round_trip(path: Seq<char>)
    ensures
        uri_path(file_uri(path)) == Ok::<Seq<char>, UriError>(path),
{
    reveal_strlit("file://");
    let bytes = encode_utf8(path);
    let enc = percent_encoded(bytes);
    let uri = file_uri(path);
    assert(uri.take(7) =~= "file://"@);
    assert(uri.skip(7) =~= enc);
    lemma_encoded_ascii(bytes);
    lemma_ascii_bytes(enc);
    lemma_decode_encoded(bytes);
    vstd::utf8::encode_utf8_valid_utf8(path);
    vstd::utf8::encode_utf8_decode_utf8(path);
}

/// Map a location received from the language server: its URI becomes a
/// path, and its zero-based line becomes one-based.
pub fn into_location(uri: &str, line: u32, character: u32) -> (r: Result<Location, UriError>)
    requires
        line < u32::MAX,
    ensures
        match r {
            Ok(loc) => uri_path(uri@) == Ok::<Seq<char>, UriError>(loc.file@) && loc.line == line
                + 1 && loc.character == character,
            Err(e) => uri_path(uri@) == Err::<Seq<char>, UriError>(e),
        },
{
    let file = decode_file_uri(uri)?;
    Ok(Location { file, line: line + 1, character })
}

/// The UTF-16 code units of a character: two outside the basic plane.
pub open spec fn utf16_width(c: char) -> nat {
    if c as u32 > 0xFFFF {
        2
    } else {
        1
    }
}

/// The UTF-16 length of a text.
pub open spec fn utf16_len(s: Seq<char>) -> nat
    decreases s.len(),
{
    if s.len() == 0 {
        0
    } else {
        utf16_len(s.drop_last()) + utf16_width(s.last())
    }
}

proof fn lemma_utf16_len_monotone(s: Seq<char>, i: int, j: int)
    requires
        0 <= i <= j <= s.len(),
    ensures
        utf16_len(s.take(i)) + (j - i) <= utf16_len(s.take(j)),
    decreases j - i,
{
    if i < j {
        lemma_utf16_len_monotone(s, i, j - 1);
        assert(s.take(j).drop_last() =~= s.take(j - 1));
    }
}

/// The UTF-16 column of the character column `column` on `line`: the UTF-16
/// length of the characters before it; a column past the end of the line
/// counts one unit per character beyond it.
pub open spec fn utf16_column_spec(line: Seq<char>, column: nat) -> int {
    if column <= line.len() {
        utf16_len(line.take(column as int)) as int
    } else {
        utf16_len(line) + (column - line.len())
    }
}

/// The character column of the UTF-16 column `units` on `line`: the number of
/// characters that fit in the first `units` code units; a column past the end
/// of the line counts one character per unit beyond it.
pub open spec fn char_column_spec(line: Seq<char>, units: nat) -> int {
    if utf16_len(line) <= units {
        line.len() + (units - utf16_len(line))
    } else {
        choose|k: int|
            0 <= k < line.len() && utf16_len(#[trigger] line.take(k)) <= units < utf16_len(
                line.take(k + 1),
            )
    }
}

/// A character column is at most the line's length plus the UTF-16 column.
pub proof fn lemma_char_column_bound(line: Seq<char>, units: nat)
    ensures
        0 <= char_column_spec(line, units) <= line.len() + units,
{
    if utf16_len(line) > units {
        lemma_char_column_exists(line, units);
    }
}

proof fn lemma_char_column_exists(line: Seq<char>, units: nat)
    requires
        utf16_len(line) > units,
    ensures
        exists|k: int|
            0 <= k < line.len() && utf16_len(#[trigger] line.take(k)) <= units < utf16_len(
                line.take(k + 1),
            ),
    decreases line.len(),
{
    let n = line.len() as int;
    let d = line.drop_last();
    assert(line.take(n) =~= line);
    assert(line.take(n - 1) =~= d);
    if utf16_len(d) > units {
        lemma_char_column_exists(d, units);
        let k = choose|k: int|
            0 <= k < d.len() && utf16_len(#[trigger] d.take(k)) <= units < utf16_len(
                d.take(k + 1),
            );
        assert(d.take(k) =~= line.take(k));
        assert(d.take(k + 1) =~= line.take(k + 1));
    } else {
        assert(utf16_len(line.take(n - 1)) <= units < utf16_len(line.take(n)));
    }
}

/// The UTF-16 column of the character column `column` on `line`.
pub fn utf16_column(line: &str, column: u32) -> (r: u32)
    requires
        utf16_column_spec(line@, column as nat) <= u32::MAX,
    ensures
        r == utf16_column_spec(line@, column as nat),
{
    let len = line.unicode_len();
    let mut units: u32 = 0;
    let mut i: usize = 0;
    assert(line@.take(0) =~= Seq::<char>::empty());
    while i < len && i < column as usize
        invariant
            len == line@.len(),
            i <= len,
            i <= column,
            units == utf16_len(line@.take(i as int)),
            utf16_column_spec(line@, column as nat) <= u32::MAX,
        decreases len - i,
    {
        let c = line.get_char(i);
        assert(line@.take(i + 1).drop_last() =~= line@.take(i as int));
        proof {
            lemma_utf16_len_monotone(line@, i + 1, if column <= len { column as int } else { len as int });
            if column as int > len {
                assert(line@.take(len as int) =~= line@);
            }
        }
        units = units + if (c as u32) > 0xFFFF {
            2
        } else {
            1
        };
        i = i + 1;
    }
    if (i as u32) < column {
        assert(line@.take(len as int) =~= line@);
        units + (column - i as u32)
    } else {
        units
    }
}

/// The character column of the UTF-16 column `units` on `line`.
pub fn char_column(line: &str, units: u32) -> (r: u32)
    requires
        char_column_spec(line@, units as nat) <= u32::MAX,
    ensures
        r == char_column_spec(line@, units as nat),
{
    let len = line.unicode_len();
    let mut seen: u32 = 0;
    let mut i: usize = 0;
    assert(line@.take(0) =~= Seq::<char>::empty());
    while i < len
        invariant
            len == line@.len(),
            i <= len,
            seen == utf16_len(line@.take(i as int)),
            seen <= units,
            char_column_spec(line@, units as nat) <= u32::MAX,
        decreases len - i,
    {
        let c = line.get_char(i);
        let w: u32 = if (c as u32) > 0xFFFF {
            2
        } else {
            1
        };
        assert(line@.take(i + 1).drop_last() =~= line@.take(i as int));
        if w > units - seen {
            proof {
                lemma_utf16_len_monotone(line@, i + 1, len as int);
                assert(line@.take(len as int) =~= line@);
                assert(utf16_len(line@.take(i as int)) <= units < utf16_len(line@.take(i + 1)));
                let k = choose|k: int|
                    0 <= k < line@.len() && utf16_len(#[trigger] line@.take(k)) <= units
                        < utf16_len(line@.take(k + 1));
                lemma_unique_column(line@, units as nat, k, i as int);
            }
            return i as u32;
        }
        seen = seen + w;
        i = i + 1;
    }
    assert(line@.take(len as int) =~= line@);
    (len as u32) + (units - seen)
}

/// A character column converted to UTF-16 and back is the same column.
pub proof fn lemma_column_round_trip(line: Seq<char>, column: nat)
    ensures
        utf16_column_spec(line, column) >= 0,
        char_column_spec(line, utf16_column_spec(line, column) as nat) == column,
{
    let u = utf16_column_spec(line, column);
    if column <= line.len() {
        lemma_utf16_len_monotone(line, column as int, line.len() as int);
        assert(line.take(line.len() as int) =~= line);
        if column < line.len() {
            lemma_utf16_len_monotone(line, column as int, column as int + 1);
            assert(utf16_len(line.take(column as int)) <= u < utf16_len(line.take(column as int + 1)));
            let k = choose|k: int|
                0 <= k < line.len() && utf16_len(#[trigger] line.take(k)) <= u < utf16_len(
                    line.take(k + 1),
                );
            lemma_unique_column(line, u as nat, k, column as int);
        }
    }
}

proof fn lemma_unique_column(line: Seq<char>, units: nat, k: int, i: int)
    requires
        0 <= k < line.len(),
        0 <= i < line.len(),
        utf16_len(line.take(k)) <= units < utf16_len(line.take(k + 1)),
        utf16_len(line.take(i)) <= units < utf16_len(line.take(i + 1)),
    ensures
        k == i,
{
    if k < i {
        lemma_utf16_len_monotone(line, k + 1, i);
    } else if i < k {
        lemma_utf16_len_monotone(line, i + 1, k);
    }
}

} // verus!

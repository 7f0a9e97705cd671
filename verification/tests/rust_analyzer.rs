use koyashi::rust_analyzer::{
    char_column, utf16_column, decode_file_uri, encode_file_uri, into_location, percent_decode, percent_encode, UriError,
};

#[test]
fn file_uri_round_trips() {
    let path = "/tmp/koyashi test/src/main.rs";
    let uri = encode_file_uri(path);
    assert!(uri.starts_with("file:///tmp/koyashi%20test/"));
    assert_eq!(decode_file_uri(&uri).unwrap(), path);
}

#[test]
fn percent_encoding_keeps_unreserved_bytes() {
    assert_eq!(percent_encode("a-Z_0.~/b"), "a-Z_0.~/b");
    assert_eq!(percent_encode("a b%"), "a%20b%25");
    assert_eq!(percent_encode("é"), "%C3%A9");
    assert_eq!(percent_decode("%C3%a9").unwrap(), "é");
}

#[test]
fn non_ascii_paths_round_trip() {
    let path = "/home/ユーザー/😀 crate/src/lib.rs";
    assert_eq!(decode_file_uri(&encode_file_uri(path)).unwrap(), path);
}

#[test]
fn decoding_errors() {
    assert_eq!(decode_file_uri("http://x"), Err(UriError::NotFileUri));
    assert_eq!(decode_file_uri("file:/"), Err(UriError::NotFileUri));
    assert_eq!(percent_decode("%zz"), Err(UriError::InvalidPercentEncoding));
    assert_eq!(percent_decode("%C3"), Err(UriError::DecodedNotUtf8));
    assert_eq!(percent_decode("%\u{e9}"), Err(UriError::InvalidPercentEncoding));
    assert_eq!(percent_decode("%a\u{e9}"), Err(UriError::EscapeNotUtf8));
    // A `%` near the end stands for itself; `+` before one digit is accepted.
    assert_eq!(percent_decode("50%").unwrap(), "50%");
    assert_eq!(percent_decode("%+A").unwrap(), "\n");
}

#[test]
fn locations_become_one_based() {
    let location = into_location("file:///ws/src/main.rs", 48, 9).unwrap();
    assert_eq!(location.file, "/ws/src/main.rs");
    assert_eq!(location.line, 49);
    assert_eq!(location.character, 9);
    assert!(into_location("untitled:1", 0, 0).is_err());
}

#[test]
fn columns_convert_between_characters_and_utf16() {
    let line = "    let _ = \"😀😀😀😀\"; banner.tag = \"released\".to_string();";
    let tag = line.find("tag").unwrap();
    let chars = line[..tag].chars().count() as u32;
    let units = line[..tag].encode_utf16().count() as u32;
    assert_eq!(units, chars + 4);
    assert_eq!(utf16_column(line, chars), units);
    assert_eq!(char_column(line, units), chars);
    // Plain ASCII columns are the same in both units.
    assert_eq!(utf16_column("abc", 2), 2);
    assert_eq!(char_column("abc", 2), 2);
    // Past the end of the line, one unit per character.
    assert_eq!(utf16_column("😀", 3), 4);
    assert_eq!(char_column("😀", 4), 3);
    // A column inside a surrogate pair falls on its character.
    assert_eq!(char_column("a😀b", 2), 1);
}

#[test]
fn file_uri_decoding_errors() {
    assert_eq!(decode_file_uri("http://x/a.rs"), Err(UriError::NotFileUri));
    assert_eq!(decode_file_uri("file:///%FF"), Err(UriError::DecodedNotUtf8));
    assert_eq!(decode_file_uri("file:///a%zz"), Err(UriError::InvalidPercentEncoding));
}

#[test]
fn percent_encoding_lengths() {
    let plain = "src/main_1.rs";
    assert_eq!(percent_encode(plain), plain);
    let mixed = "a b+é";
    let encoded = percent_encode(mixed);
    assert_eq!(encoded, "a%20b%2B%C3%A9");
    assert!(encoded.is_ascii());
    assert_eq!(encoded.len(), mixed.len() + 2 * 4);
}

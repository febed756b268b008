use multra::constants::{
    contains_byte, decode_extended_value, decode_percent_bytes, decode_value,
    eq_ignore_ascii_case, hex_pair_value, index_of_byte, parse_quoted_value,
    parse_unquoted_value, skip_ascii_ws, skip_to_next_parameter, trim_ascii_ws_end,
    trim_ascii_ws_start, trim_ascii_ws_then,
};
use multra::ContentDispositionAttr;

#[test]
fn trims_ascii_whitespace() {
    assert_eq!(trim_ascii_ws_start(b" \t\r\n abc "), b"abc ");
    assert_eq!(trim_ascii_ws_end(b" abc \x0c\t"), b" abc");
    assert_eq!(trim_ascii_ws_start(b"   "), b"");
    assert_eq!(trim_ascii_ws_end(b"   "), b"");
    assert_eq!(trim_ascii_ws_then(b"  \"x", b'"'), Some(&b"x"[..]));
    assert_eq!(trim_ascii_ws_then(b"  x\"", b'"'), None);
    assert_eq!(trim_ascii_ws_then(b"   ", b'"'), None);
}

#[test]
fn skips_to_parameters_and_whitespace() {
    let header = b"form-data; name=x";
    let mut index = 0;
    skip_to_next_parameter(header, &mut index);
    assert_eq!(index, 10);
    skip_ascii_ws(header, &mut index);
    assert_eq!(index, 11);
    let mut end = 12;
    skip_to_next_parameter(header, &mut end);
    assert_eq!(end, header.len());
    let mut past = header.len() + 3;
    skip_to_next_parameter(header, &mut past);
    skip_ascii_ws(header, &mut past);
    assert_eq!(past, header.len() + 3);
}

#[test]
fn finds_bytes() {
    assert!(contains_byte(b"a%b", b'%'));
    assert!(!contains_byte(b"ab", b'%'));
    assert_eq!(index_of_byte(b"a'b'c", b'\'', 0), Some(1));
    assert_eq!(index_of_byte(b"a'b'c", b'\'', 2), Some(3));
    assert_eq!(index_of_byte(b"a'b'c", b'\'', 4), None);
}

#[test]
fn compares_ignoring_ascii_case() {
    assert!(eq_ignore_ascii_case(b"FileName", b"filename"));
    assert!(!eq_ignore_ascii_case(b"filename", b"filename*"));
    assert!(!eq_ignore_ascii_case(b"name", b"nams"));
}

#[test]
fn reads_quoted_values() {
    assert_eq!(parse_quoted_value(br#"  "abc" rest"#), Some((&b"abc"[..], false)));
    assert_eq!(parse_quoted_value(br#""a\"b""#), Some((&br#"a\"b"#[..], true)));
    // an even run of backslashes does not escape the quote
    assert_eq!(parse_quoted_value(br#""a\\"b""#), Some((&br#"a\\"#[..], false)));
    assert_eq!(parse_quoted_value(br#""unterminated"#), None);
    assert_eq!(parse_quoted_value(br#"abc"#), None);
}

#[test]
fn reads_unquoted_values() {
    assert_eq!(parse_unquoted_value(b"  abc  ; next"), b"abc");
    assert_eq!(parse_unquoted_value(b"abc"), b"abc");
    assert_eq!(parse_unquoted_value(b"  "), b"");
}

#[test]
fn reads_hex_pairs_like_a_base_16_number() {
    assert_eq!(hex_pair_value(b'2', b'0'), Some(0x20));
    assert_eq!(hex_pair_value(b'f', b'F'), Some(0xff));
    assert_eq!(hex_pair_value(b'+', b'a'), Some(0x0a));
    assert_eq!(hex_pair_value(b'-', b'a'), None);
    assert_eq!(hex_pair_value(b'a', b'+'), None);
    assert_eq!(hex_pair_value(b'g', b'0'), None);
}

#[test]
fn percent_decodes_bytes() {
    assert_eq!(decode_percent_bytes(b"a%20b"), Some(b"a b".to_vec()));
    assert_eq!(decode_percent_bytes(b"plain"), Some(b"plain".to_vec()));
    assert_eq!(decode_percent_bytes(b"%E4%BD%A0"), Some("你".as_bytes().to_vec()));
    assert_eq!(decode_percent_bytes(b"bad%2"), None);
    assert_eq!(decode_percent_bytes(b"bad%zz"), None);
    assert_eq!(decode_percent_bytes(b"%+1"), Some(vec![1]));
}

#[test]
fn decodes_values_as_text() {
    assert_eq!(decode_value(b"a%20b", false).unwrap(), "a b");
    assert_eq!(decode_value(br#"a\"b"#, true).unwrap(), "a\"b");
    assert_eq!(decode_value(br#"a\"b"#, false).unwrap(), "a\\\"b");
    assert_eq!(decode_value(b"%FF", false), None);
    assert_eq!(decode_value(b"\xff", false), None);
}

#[test]
fn decodes_extended_values() {
    assert_eq!(decode_extended_value(b"UTF-8''%E4%BD%A0.txt").unwrap(), "你.txt");
    assert_eq!(decode_extended_value(b"iso-8859-1'en'%A3%20rates").unwrap(), "\u{a3} rates");
    assert_eq!(decode_extended_value(b"no-such-charset''abc"), None);
    assert_eq!(decode_extended_value(b"UTF-8'abc"), None);
    assert_eq!(decode_extended_value(b"UTF-8''%FF"), None);
}

#[test]
fn header_scan_rules() {
    // the text before the first `;` is never a parameter
    assert_eq!(ContentDispositionAttr::Name.extract_from(b"name=x"), None);
    assert_eq!(ContentDispositionAttr::FileName.extract_from(b"filename=x"), None);
    assert_eq!(ContentDispositionAttr::FileName.extract_from(b"filename*=UTF-8''x"), None);
    // a parameter without `=` is passed over
    assert_eq!(
        ContentDispositionAttr::Name.extract_from(b"form-data; name; name=y").unwrap(),
        "y"
    );
    // an undecodable extended filename falls back to the plain one
    assert_eq!(
        ContentDispositionAttr::FileName
            .extract_from(b"form-data; filename*=nope''x; filename=plain.txt")
            .unwrap(),
        "plain.txt"
    );
    // a percent sequence that does not decode leaves no value
    assert_eq!(ContentDispositionAttr::Name.extract_from(b"form-data; name=a%zz"), None);
}

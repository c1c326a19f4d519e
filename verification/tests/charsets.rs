use keywich_lib::charset::Charset;

#[test]
fn valid_alpha_numeric() {
    let charset = Charset::new("abcdABCD01234").unwrap();
    assert_eq!("01234ABCDabcd", charset.to_string().as_str());
}

#[test]
fn valid_range() {
    let charset = Charset::new("a..dA..D0..4").unwrap();
    assert_eq!("01234ABCDabcd", charset.to_string().as_str());
}

#[test]
fn valid_range_with_period() {
    let charset = Charset::new("a..dA..D0..4.").unwrap();
    assert_eq!(".01234ABCDabcd", charset.to_string().as_str());
}

#[test]
#[should_panic]
fn invalid_range_with_period() {
    Charset::new("a...dA..D0..4.").unwrap();
}

#[test]
#[should_panic]
fn invalid_range() {
    Charset::new("a...DA..D").unwrap();
}

#[test]
fn duplicate_symbols() {
    let charset = Charset::new("a..da..dabcd").unwrap();
    assert_eq!("abcd", charset.to_string().as_str());
}

#[test]
fn decreasing_range_is_rejected() {
    assert!(Charset::new("z..a").is_err());
}

#[test]
fn empty_expression_is_rejected() {
    assert!(Charset::new("").is_err());
}

#[test]
fn escape_takes_next_symbol_literally() {
    let charset = Charset::new("\\a\\.b").unwrap();
    assert_eq!(".ab", charset.to_string().as_str());
}

#[test]
fn backslash_is_escaped_in_rendering() {
    let charset = Charset::new("\\\\x").unwrap();
    assert_eq!("\\\\x", charset.to_string().as_str());
}

#[test]
fn round_trip_reparses_to_same_table() {
    for expr in ["a..dA..D0..4.", "abcdABCD01234", "\\\\x-,./", "a..z0..9", "."] {
        let first = Charset::new(expr).unwrap();
        let rendered = first.to_string();
        let second = Charset::new(rendered.as_str()).unwrap();
        assert_eq!(first.to_string(), second.to_string());
    }
}

#[test]
fn transform_indexes_by_byte_modulo_table_len() {
    let charset = Charset::new("abcd").unwrap();
    // bytes 0, 1, 5, 255 against a table of four symbols
    let text = charset.transform_bytes(&[0u8, 1u8, 5u8, 255u8]);
    assert_eq!("abbd", text.as_str());
}

#[test]
fn transform_str_uses_utf8_bytes() {
    let charset = Charset::new("ab").unwrap();
    let text = charset.transform_str("aa");
    // 'a' is byte 97, odd, so both bytes select the second symbol
    assert_eq!("bb", text.as_str());
}

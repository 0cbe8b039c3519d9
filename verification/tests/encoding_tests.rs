use pdf_clean_margins::encoding::c_to_encoding_str;

#[test]
fn ascii_char_is_one_byte() {
    assert_eq!(c_to_encoding_str('A'), String::from("41 "));
}

#[test]
fn latin_accent_is_two_bytes() {
    assert_eq!(c_to_encoding_str('\u{e9}'), String::from("c3 a9 "));
}

#[test]
fn euro_sign_is_three_bytes() {
    assert_eq!(c_to_encoding_str('\u{20ac}'), String::from("e2 82 ac "));
}

#[test]
fn musical_symbol_is_four_bytes() {
    assert_eq!(c_to_encoding_str('\u{1d11e}'), String::from("f0 9d 84 9e "));
}

#[test]
fn nul_char_renders_as_zero_byte() {
    assert_eq!(c_to_encoding_str('\u{0}'), String::from("00 "));
}

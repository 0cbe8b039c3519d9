use pdf_clean_margins::selection::{is_valid_selection, Selection};
use pdf_clean_margins::SpecError;

fn zero() -> Selection {
    Selection { page_number: 0, left: 0, bottom: 0, right: 0, top: 0 }
}

#[test]
fn page_number_only_inherits_all_zero() {
    let sel = Selection::new_or_default("5", &zero()).unwrap();
    assert_eq!(sel.page_number, 5);
    assert_eq!((sel.left, sel.bottom, sel.right, sel.top), (0, 0, 0, 0));
}

#[test]
fn trailing_fields_inherit_from_previous() {
    let prev = Selection { page_number: 9, left: 1, bottom: 2, right: 3, top: 4 };
    let sel = Selection::new_or_default("7:8", &prev).unwrap();
    assert_eq!(sel.page_number, 7);
    assert_eq!(sel.left, 8);
    assert_eq!((sel.bottom, sel.right, sel.top), (2, 3, 4));
}

#[test]
fn internal_empty_field_inherits() {
    let prev = Selection { page_number: 0, left: 10, bottom: 20, right: 30, top: 40 };
    let sel = Selection::new_or_default("3::5", &prev).unwrap();
    assert_eq!(sel.page_number, 3);
    assert_eq!(sel.left, 10);
    assert_eq!(sel.bottom, 5);
    assert_eq!(sel.right, 30);
    assert_eq!(sel.top, 40);
}

#[test]
fn six_fields_are_malformed() {
    let r = Selection::new_or_default("1:1:1:1:1:1", &zero());
    assert_eq!(r, Err(SpecError::MalformedSpec));
}

#[test]
fn empty_page_number_is_invalid() {
    let r = Selection::new_or_default("", &zero());
    assert_eq!(r, Err(SpecError::InvalidPageNumber));
}

#[test]
fn non_numeric_page_number_is_invalid() {
    let r = Selection::new_or_default("x:1", &zero());
    assert_eq!(r, Err(SpecError::InvalidPageNumber));
}

#[test]
fn non_numeric_margin_is_invalid() {
    let r = Selection::new_or_default("1:x", &zero());
    assert_eq!(r, Err(SpecError::InvalidMargin));
}

#[test]
fn overflowing_page_number_is_invalid() {
    let r = Selection::new_or_default("4294967296", &zero());
    assert_eq!(r, Err(SpecError::InvalidPageNumber));
    let ok = Selection::new_or_default("4294967295", &zero()).unwrap();
    assert_eq!(ok.page_number, u32::MAX);
}

#[test]
fn overflowing_margin_is_invalid() {
    let r = Selection::new_or_default("1:4294967296", &zero());
    assert_eq!(r, Err(SpecError::InvalidMargin));
}

#[test]
fn full_five_fields_parse_literally() {
    let sel = Selection::new_or_default("2:11:12:13:14", &zero()).unwrap();
    assert_eq!(sel.page_number, 2);
    assert_eq!((sel.left, sel.bottom, sel.right, sel.top), (11, 12, 13, 14));
}

#[test]
fn is_valid_selection_accepts_and_hands_back() {
    assert_eq!(is_valid_selection("0:1:2:3:4"), Ok(String::from("0:1:2:3:4")));
    assert_eq!(is_valid_selection("1:1:1:1:1:1"), Err(SpecError::MalformedSpec));
    assert_eq!(is_valid_selection("a"), Err(SpecError::InvalidPageNumber));
}

#[test]
fn default_selection_is_all_zero() {
    let d = Selection::default();
    assert_eq!(d, zero());
}

#[test]
fn plus_sign_is_not_a_numeral() {
    let r = Selection::new_or_default("+3", &zero());
    assert_eq!(r, Err(SpecError::InvalidPageNumber));
}

#[test]
fn display_string_renders_all_fields() {
    let sel = Selection { page_number: 12, left: 0, bottom: 205, right: 3, top: 4 };
    assert_eq!(sel.to_display_string(), String::from("12:0:205:3:4"));
}

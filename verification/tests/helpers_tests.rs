use diskclear::order::desc_order;
use diskclear::text::{lower_of, str_chars, string_from_chars, trim};

#[test]
fn desc_order_is_stable() {
    assert_eq!(desc_order(&vec![3, 5, 3, 9]), vec![3, 1, 0, 2]);
    assert!(desc_order(&vec![]).is_empty());
}

#[test]
fn text_helpers() {
    assert_eq!(trim(&str_chars("  a b \t")), str_chars("a b"));
    assert_eq!(lower_of(&str_chars("ÄbC")), str_chars("äbc"));
    assert_eq!(string_from_chars(&['盘', '清', '!']), "盘清!");
}

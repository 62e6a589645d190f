use lib::report::escape;
use lib::text::usize_to_string;

#[test]
fn json_escapes() {
    assert_eq!(escape("plain"), "plain");
    assert_eq!(escape("a\"b\\c\nd\re"), "a\\\"b\\\\c\\nd\\re");
}

#[test]
fn decimal_numbers() {
    assert_eq!(usize_to_string(0), "0");
    assert_eq!(usize_to_string(1500000), "1500000");
    assert_eq!(usize_to_string(usize::MAX), usize::MAX.to_string());
}

#[test]
fn escapes_of_different_texts_differ() {
    assert_ne!(escape("a\nb"), escape("a\\nb"));
    assert_ne!(escape("\\\""), escape("\""));
    assert_eq!(escape("a\\nb"), "a\\\\nb");
}

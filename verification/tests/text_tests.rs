use rag_core::text::{clean_text, decimal_string};

#[test]
fn clean_unifies_line_endings_and_drops_blanks() {
    assert_eq!(clean_text("  a \r\n\r\n b \r"), "a\nb");
}

#[test]
fn clean_trims_every_line() {
    assert_eq!(clean_text("\t hello \n   world\t\n"), "hello\nworld");
}

#[test]
fn clean_of_blank_input_is_empty() {
    assert_eq!(clean_text("   \r\n \t \n"), "");
    assert_eq!(clean_text(""), "");
}

#[test]
fn clean_keeps_interior_spacing() {
    assert_eq!(clean_text("a  b\nc"), "a  b\nc");
}

#[test]
fn decimal_renders_digits() {
    assert_eq!(decimal_string(0), "0");
    assert_eq!(decimal_string(7), "7");
    assert_eq!(decimal_string(507), "507");
    assert_eq!(decimal_string(1000), "1000");
}

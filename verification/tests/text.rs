use taper::text::same_text;
use taper::text::write_decimal;
use taper::text::write_numeral;

#[test]
fn numbers_are_written_without_leading_zeros() {
    assert_eq!(write_decimal(0), "0");
    assert_eq!(write_decimal(7), "7");
    assert_eq!(write_decimal(1020), "1020");
    assert_eq!(write_decimal(u64::MAX), "18446744073709551615");
    assert_eq!(write_numeral(0xdead_beef_0123, 16), "deadbeef0123");
    assert_eq!(write_numeral(5, 2), "101");
}

#[test]
fn texts_are_compared_by_character() {
    assert!(same_text("", ""));
    assert!(same_text("café", "café"));
    assert!(!same_text("raw", "raws"));
    assert!(!same_text("raw", "rav"));
}

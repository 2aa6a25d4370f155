use set_span::number::{parse_index, remove_number_suffix};

#[test]
fn every_suffix_of_the_table_is_removed() {
    for suffix in ["i8", "i16", "i32", "i64", "i128", "u8", "u16", "u32", "u64", "u128"] {
        let text = format!("42{suffix}");
        assert_eq!(remove_number_suffix(&text), "42");
    }
}

#[test]
fn text_without_suffix_is_kept() {
    assert_eq!(remove_number_suffix("42"), "42");
    assert_eq!(remove_number_suffix(""), "");
    assert_eq!(remove_number_suffix("abc"), "abc");
}

#[test]
fn machine_word_suffixes_are_no_part_of_the_table() {
    assert_eq!(remove_number_suffix("0usize"), "0usize");
    assert_eq!(remove_number_suffix("0isize"), "0isize");
    assert_eq!(remove_number_suffix("1f32"), "1f32");
}

#[test]
fn only_one_suffix_is_removed() {
    assert_eq!(remove_number_suffix("0u8u8"), "0u8");
    assert_eq!(remove_number_suffix("7i8i128"), "7i8");
}

#[test]
fn a_bare_suffix_leaves_nothing() {
    assert_eq!(remove_number_suffix("u8"), "");
    assert_eq!(remove_number_suffix("i128"), "");
}

#[test]
fn suffix_after_wider_characters_is_removed() {
    assert_eq!(remove_number_suffix("\u{e9}\u{4e2d}u16"), "\u{e9}\u{4e2d}");
}

#[test]
fn decimal_digits_give_their_value() {
    assert_eq!(parse_index("0"), Some(0));
    assert_eq!(parse_index("7"), Some(7));
    assert_eq!(parse_index("10"), Some(10));
    assert_eq!(parse_index("12345"), Some(12345));
    assert_eq!(parse_index("007"), Some(7));
}

#[test]
fn one_leading_plus_sign_is_accepted() {
    assert_eq!(parse_index("+5"), Some(5));
    assert_eq!(parse_index("++5"), None);
    assert_eq!(parse_index("+"), None);
}

#[test]
fn anything_but_digits_is_refused() {
    assert_eq!(parse_index(""), None);
    assert_eq!(parse_index("-1"), None);
    assert_eq!(parse_index("1_000"), None);
    assert_eq!(parse_index("0x10"), None);
    assert_eq!(parse_index("1.5"), None);
    assert_eq!(parse_index(" 1"), None);
    assert_eq!(parse_index("1 "), None);
    assert_eq!(parse_index("\"1\""), None);
    assert_eq!(parse_index("\u{661}"), None);
}

#[test]
fn the_largest_index_is_read_and_the_next_number_is_not() {
    let largest = usize::MAX.to_string();
    assert_eq!(parse_index(&largest), Some(usize::MAX));
    assert_eq!(parse_index("18446744073709551616"), None);
    assert_eq!(parse_index("99999999999999999999999999"), None);
}

#[test]
fn parsing_agrees_with_the_standard_library() {
    for text in ["0", "1", "+9", "0009", "", "+", "-", "-0", "12a", "a12", "4294967296"] {
        assert_eq!(parse_index(text), text.parse::<usize>().ok(), "on {text:?}");
    }
}

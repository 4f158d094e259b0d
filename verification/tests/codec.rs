use note_store::codec::{
    extract_slug, format_filename, is_old_timestamp_format, kept_slug, note_number, note_stem_of,
    parse_file_number,
};

#[test]
fn test_parse_file_number_valid() {
    assert_eq!(parse_file_number("1-hello"), Some(1));
    assert_eq!(parse_file_number("42-my-note"), Some(42));
    assert_eq!(parse_file_number("100-test"), Some(100));
}

#[test]
fn test_parse_file_number_invalid() {
    assert_eq!(parse_file_number("hello"), None);
    assert_eq!(parse_file_number("abc-123"), None);
    assert_eq!(parse_file_number("-test"), None);
}

#[test]
fn test_is_old_timestamp_format_valid() {
    assert!(is_old_timestamp_format("1704067200000"));
    assert!(is_old_timestamp_format("1234567890"));
}

#[test]
fn test_is_old_timestamp_format_invalid() {
    assert!(!is_old_timestamp_format("123"));
    assert!(!is_old_timestamp_format("abc1234567"));
    assert!(!is_old_timestamp_format("12-hello"));
}

#[test]
fn key_is_read_before_the_first_separator_only() {
    assert_eq!(parse_file_number("7-a-9-b"), Some(7));
    assert_eq!(parse_file_number("7-"), Some(7));
    assert_eq!(parse_file_number("7"), None);
    assert_eq!(parse_file_number(""), None);
}

#[test]
fn key_may_have_a_plus_sign_and_leading_zeros() {
    assert_eq!(parse_file_number("+5-x"), Some(5));
    assert_eq!(parse_file_number("007-x"), Some(7));
    assert_eq!(parse_file_number("+-x"), None);
    assert_eq!(parse_file_number("5+-x"), None);
    assert_eq!(parse_file_number(" 5-x"), None);
    assert_eq!(parse_file_number("٣-x"), None);
}

#[test]
fn key_must_fit_in_64_bits() {
    assert_eq!(parse_file_number("18446744073709551615-x"), Some(u64::MAX));
    assert_eq!(parse_file_number("18446744073709551616-x"), None);
    assert_eq!(parse_file_number("99999999999999999999999-x"), None);
    assert_eq!(parse_file_number("00000000000000000000000001-x"), Some(1));
}

#[test]
fn format_filename_writes_number_slug_and_extension() {
    assert_eq!(format_filename(7, "my-note"), "7-my-note.md");
    assert_eq!(format_filename(0, "x"), "0-x.md");
    assert_eq!(format_filename(10, "x"), "10-x.md");
    assert_eq!(format_filename(u64::MAX, ""), "18446744073709551615-.md");
}

#[test]
fn written_key_is_read_back() {
    for number in [0u64, 1, 9, 10, 99, 100, 1234567890, u64::MAX] {
        for slug in ["a", "my-note", "", "12-34", "-", "untitled"] {
            let name = format_filename(number, slug);
            assert_eq!(parse_file_number(&name), Some(number));
            assert_eq!(note_number(&name), Some(number));
            let stem = note_stem_of(&name).unwrap();
            assert_eq!(parse_file_number(&stem), Some(number));
        }
    }
}

#[test]
fn slug_is_what_follows_the_first_separator() {
    assert_eq!(extract_slug("5-my-note"), "my-note");
    assert_eq!(extract_slug("5-"), "untitled");
    assert_eq!(extract_slug("5"), "untitled");
    assert_eq!(kept_slug("5-my-note.md"), "my-note");
    assert_eq!(kept_slug("5-.md"), "untitled");
}

#[test]
fn only_md_files_are_notes() {
    assert_eq!(note_stem_of("3-a.md"), Some("3-a".to_string()));
    assert_eq!(note_stem_of("a.b.md"), Some("a.b".to_string()));
    assert_eq!(note_stem_of(".md"), None);
    assert_eq!(note_stem_of("3-a.txt"), None);
    assert_eq!(note_stem_of("3-a.MD"), None);
    assert_eq!(note_stem_of("3-a"), None);
    assert_eq!(note_number("3-a.md"), Some(3));
    assert_eq!(note_number("3-a.txt"), None);
    assert_eq!(note_number("notes.md"), None);
}

#[test]
fn legacy_stems_are_ten_or_more_digits() {
    assert!(is_old_timestamp_format("0000000000"));
    assert!(!is_old_timestamp_format("123456789"));
    assert!(!is_old_timestamp_format("1234567890a"));
    assert!(!is_old_timestamp_format("１２３４５６７８９０"));
    assert!(!is_old_timestamp_format(""));
}

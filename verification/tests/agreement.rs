use note_store::codec::{
    format_filename, is_old_timestamp_format, note_stem_of, parse_file_number,
};
use note_store::numbering::stem_of_entry;
use note_store::title::parse_title;
use std::path::Path;

const NAMES: [&str; 40] = [
    "",
    "a",
    "1-a",
    "1-a.md",
    "12-b-c.md",
    "+3-x.md",
    "-3-x.md",
    "03-x.md",
    "3 -x.md",
    "3-.md",
    "3.md",
    ".md",
    "..md",
    "a..md",
    "a.md.",
    "a.MD",
    "a.md.md",
    ".hidden",
    ".hidden.md",
    "..",
    ".",
    "...",
    "a.",
    "a.b.c",
    "1700000000000.md",
    "1700000000000",
    "12345678901234567890.md",
    "18446744073709551615-z.md",
    "18446744073709551616-z.md",
    "٣-x.md",
    "1２-x.md",
    "é-1.md",
    "1-é.md",
    "1--x",
    "--",
    "+-x",
    "+",
    "-",
    "1\u{2d}x",
    "1\u{2010}x",
];

#[test]
fn key_agrees_with_the_standard_integer_parser() {
    for name in NAMES {
        let expected = name.find('-').and_then(|dash| name[..dash].parse::<u64>().ok());
        assert_eq!(parse_file_number(name), expected, "{:?}", name);
    }
}

#[test]
fn legacy_test_agrees_with_the_ascii_digit_test() {
    for name in NAMES {
        let expected = name.len() >= 10 && name.chars().all(|c| c.is_ascii_digit());
        assert_eq!(is_old_timestamp_format(name), expected, "{:?}", name);
    }
}

#[test]
fn written_name_agrees_with_the_standard_formatter() {
    for number in [0u64, 7, 10, 19, 100, 999, 1000, 4294967296, u64::MAX - 1, u64::MAX] {
        for slug in ["", "a", "a-b", "é", "untitled"] {
            assert_eq!(format_filename(number, slug), format!("{}-{}.md", number, slug));
        }
    }
}

#[test]
fn stem_agrees_with_the_standard_path_rules() {
    for name in NAMES {
        if let Some(expected) = Path::new(name).file_stem() {
            assert_eq!(stem_of_entry(name), expected.to_string_lossy(), "{:?}", name);
        }
    }
}

#[test]
fn note_test_agrees_with_the_standard_extension_rule() {
    for name in NAMES {
        let path = Path::new(name);
        let expected = path.extension().is_some_and(|ext| ext == "md");
        assert_eq!(note_stem_of(name).is_some(), expected, "{:?}", name);
        if expected {
            let stem = path.file_stem().unwrap().to_string_lossy().to_string();
            assert_eq!(note_stem_of(name), Some(stem), "{:?}", name);
        }
    }
}

#[test]
fn title_agrees_with_the_standard_line_rules() {
    let contents = [
        "",
        "# A",
        "# A\n",
        "# A\r\n",
        "# A\r",
        "# A\r\r\n",
        "x\n# A\nB",
        "x\r\n# A\r\nB",
        "x\r# A\n",
        "\n\n# A",
        "#A\n# B",
        "## A\n# B\n# C",
        " # A\n# B",
        "# \n# B",
        "#",
        "# ",
        "#\n",
        "text # A",
        "\r\n# A",
        "# A # B",
        "#\t A\n# é ü\n",
    ];
    for content in contents {
        let expected = content
            .lines()
            .find(|line| line.starts_with("# "))
            .map(|line| line["# ".len()..].to_string())
            .unwrap_or_else(|| "Untitled".to_string());
        assert_eq!(parse_title(content), expected, "{:?}", content);
    }
}

use note_store::title::parse_title;

#[test]
fn test_parse_title_with_h1() {
    assert_eq!(parse_title("# Hello World\nBody text"), "Hello World");
    assert_eq!(parse_title("# My Note"), "My Note");
}

#[test]
fn test_parse_title_with_content_before_h1() {
    assert_eq!(parse_title("Some intro\n# Title Here\nBody"), "Title Here");
}

#[test]
fn test_parse_title_no_h1() {
    assert_eq!(parse_title("No heading here"), "Untitled");
    assert_eq!(parse_title(""), "Untitled");
}

#[test]
fn test_parse_title_h2_not_matched() {
    assert_eq!(parse_title("## Not a title"), "Untitled");
}

#[test]
fn title_is_the_first_heading_of_several() {
    assert_eq!(parse_title("## Sub\n# First\n# Second\n"), "First");
}

#[test]
fn title_drops_the_carriage_return_of_a_crlf_line() {
    assert_eq!(parse_title("# Title\r\nBody"), "Title");
    assert_eq!(parse_title("# Title\r"), "Title\r");
}

#[test]
fn heading_needs_the_space_and_the_line_start() {
    assert_eq!(parse_title("#Title"), "Untitled");
    assert_eq!(parse_title("Intro # Title"), "Untitled");
    assert_eq!(parse_title("#"), "Untitled");
}

#[test]
fn heading_without_text_gives_an_empty_title() {
    assert_eq!(parse_title("# "), "");
    assert_eq!(parse_title("# \nBody"), "");
}

#[test]
fn only_the_heading_mark_is_stripped() {
    assert_eq!(parse_title("# # Twice"), "# Twice");
}

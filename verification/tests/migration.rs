use note_store::migration::{legacy_files, migration_target, slug_for_title};

fn names(list: &[&str]) -> Vec<String> {
    list.iter().map(|s| s.to_string()).collect()
}

#[test]
fn legacy_notes_migrate_in_chronological_order() {
    let mut dir = names(&["1700000000500.md", "1700000000000.md"]);
    let contents = [("1700000000000.md", "# A\n"), ("1700000000500.md", "# B\n")];
    let legacy = legacy_files(&dir);
    assert_eq!(legacy, names(&["1700000000000.md", "1700000000500.md"]));
    let mut made = Vec::new();
    for file in legacy {
        let content = contents.iter().find(|(name, _)| *name == file).unwrap().1;
        let target = migration_target(&dir, content).unwrap();
        let at = dir.iter().position(|name| *name == file).unwrap();
        dir[at] = target.clone();
        made.push(target);
    }
    assert_eq!(made, names(&["1-a.md", "2-b.md"]));
}

#[test]
fn legacy_files_are_md_files_named_by_ten_or_more_digits() {
    let dir = names(&[
        "1700000000000.md",
        "1700000000000.txt",
        "123456789.md",
        "3-note.md",
        "1234567890.md",
        "12345678901234567890123.md",
        "170000000000a.md",
    ]);
    assert_eq!(
        legacy_files(&dir),
        names(&["12345678901234567890123.md", "1234567890.md", "1700000000000.md"])
    );
}

#[test]
fn equal_timestamps_keep_the_listing_order() {
    let dir = names(&["0000000000002.md", "00000000002.md", "0000000001.md"]);
    assert_eq!(
        legacy_files(&dir),
        names(&["0000000001.md", "0000000000002.md", "00000000002.md"])
    );
}

#[test]
fn migration_numbers_follow_the_highest_key_in_the_directory() {
    let dir = names(&["7-old.md", "1700000000000.md", "12-draft.txt", "x.md"]);
    assert_eq!(migration_target(&dir, "# New Title\n"), Some("13-new-title.md".to_string()));
    assert_eq!(migration_target(&Vec::new(), "no heading"), Some("1-untitled.md".to_string()));
}

#[test]
fn a_failed_rename_leaves_the_number_for_the_next_note() {
    let dir = names(&["1700000000000.md", "1700000000500.md", "4-a.md"]);
    let first = migration_target(&dir, "# One").unwrap();
    assert_eq!(first, "5-one.md");
    let second = migration_target(&dir, "# Two").unwrap();
    assert_eq!(second, "5-two.md");
}

#[test]
fn migration_stops_at_the_largest_number() {
    let dir = names(&["18446744073709551615-a.md", "1700000000000.md"]);
    assert_eq!(migration_target(&dir, "# A"), None);
}

#[test]
fn notes_without_a_usable_title_are_filed_as_untitled() {
    assert_eq!(slug_for_title("Untitled"), "untitled");
    assert_eq!(slug_for_title(""), "untitled");
    assert_eq!(slug_for_title("?!"), "untitled");
    assert_eq!(slug_for_title("My Day"), "my-day");
}

#[test]
fn a_whole_pass_numbers_the_notes_by_age_above_the_keys_in_use() {
    let mut dir = names(&[
        "1700000000900.md",
        "4-kept.md",
        "1700000000100.md",
        "9-other.txt",
        "1700000000500.md",
    ]);
    let titles = [("1700000000100.md", "# Old"), ("1700000000500.md", "# Mid"), ("1700000000900.md", "")];
    for file in legacy_files(&dir) {
        let content = titles.iter().find(|(name, _)| *name == file).unwrap().1;
        let target = migration_target(&dir, content).unwrap();
        assert!(!dir.contains(&target));
        let at = dir.iter().position(|name| *name == file).unwrap();
        dir[at] = target;
    }
    assert_eq!(
        dir,
        names(&["12-untitled.md", "4-kept.md", "10-old.md", "9-other.txt", "11-mid.md"])
    );
    assert!(legacy_files(&dir).is_empty());
}

use note_store::notes::{
    new_note_name, notes_to_adopt, rename_note, rename_on_save, CreateError, RenameError,
};

fn names(list: &[&str]) -> Vec<String> {
    list.iter().map(|s| s.to_string()).collect()
}

#[test]
fn new_note_is_untitled_under_the_next_number() {
    assert_eq!(new_note_name(&Vec::new()), Ok("1-untitled.md".to_string()));
    assert_eq!(new_note_name(&names(&["4-a.md", "9-b.md"])), Ok("10-untitled.md".to_string()));
}

#[test]
fn no_note_is_created_above_the_largest_number() {
    let full = names(&["18446744073709551615-a.md"]);
    assert_eq!(new_note_name(&full), Err(CreateError::NumbersExhausted));
    assert_eq!(CreateError::NumbersExhausted.message(), "Note number out of range");
}

#[test]
fn saving_a_new_title_renames_the_note() {
    let dir = names(&["3-untitled.md", "4-other.md"]);
    assert_eq!(
        rename_on_save("3-untitled.md", "# Shopping List\n- milk", &dir),
        Some("3-shopping-list.md".to_string())
    );
}

#[test]
fn saving_the_same_title_keeps_the_name() {
    let dir = names(&["3-shopping-list.md"]);
    assert_eq!(rename_on_save("3-shopping-list.md", "# Shopping List\n- eggs", &dir), None);
    assert_eq!(rename_on_save("3-untitled.md", "no heading", &names(&["3-untitled.md"])), None);
}

#[test]
fn saving_does_not_rename_onto_an_existing_file() {
    let dir = names(&["3-untitled.md", "3-taken.md"]);
    assert_eq!(rename_on_save("3-untitled.md", "# Taken", &dir), None);
}

#[test]
fn saving_never_renames_a_note_without_a_number() {
    let dir = names(&["draft.md", "1700000000000.md"]);
    assert_eq!(rename_on_save("draft.md", "# Title", &dir), None);
    assert_eq!(rename_on_save("1700000000000.md", "# Title", &dir), None);
}

#[test]
fn saving_a_title_without_a_slug_files_the_note_as_untitled() {
    let dir = names(&["3-old.md"]);
    assert_eq!(rename_on_save("3-old.md", "# !!!", &dir), Some("3-untitled.md".to_string()));
    assert_eq!(rename_on_save("3-old.md", "# ", &dir), Some("3-untitled.md".to_string()));
}

#[test]
fn saving_writes_the_number_without_sign_or_leading_zeros() {
    let dir = names(&["007-bond.md"]);
    assert_eq!(rename_on_save("007-bond.md", "# Bond", &dir), Some("7-bond.md".to_string()));
}

#[test]
fn renaming_by_hand_adds_the_extension() {
    let dir = names(&["1-a.md", "2-b.md"]);
    assert_eq!(rename_note("3-c", &dir), Ok("3-c.md".to_string()));
    assert_eq!(rename_note("anything at all", &dir), Ok("anything at all.md".to_string()));
}

#[test]
fn renaming_by_hand_onto_an_existing_name_is_refused() {
    let dir = names(&["1-a.md", "2-b.md"]);
    assert_eq!(rename_note("2-b", &dir), Err(RenameError::AlreadyExists));
    assert_eq!(RenameError::AlreadyExists.message(), "A note with this name already exists");
}

#[test]
fn first_run_adopts_the_md_files_in_listing_order() {
    let dir = names(&["b.md", "a.txt", "Personal", "1700000000000.md", ".md", "c.md"]);
    assert_eq!(notes_to_adopt(&dir), names(&["b.md", "1700000000000.md", "c.md"]));
}

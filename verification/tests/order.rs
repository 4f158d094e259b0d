use note_store::order::{display_order, reorder_note, Rename, ReorderError, ReorderPlan};

fn names(list: &[&str]) -> Vec<String> {
    list.iter().map(|s| s.to_string()).collect()
}

fn rename(from: &str, to: &str) -> Rename {
    Rename { from: from.to_string(), to: to.to_string() }
}

fn shown(list: &[String]) -> Vec<String> {
    let owned = list.to_vec();
    display_order(&owned).iter().map(|note| owned[note.index].clone()).collect()
}

fn apply(list: &[String], plan: &ReorderPlan) -> Vec<String> {
    let mut after = list.to_vec();
    for step in &plan.renames {
        let at = after.iter().position(|name| *name == step.from).unwrap();
        assert!(!after.contains(&step.to));
        after[at] = step.to.clone();
    }
    after
}

#[test]
fn display_order_is_by_falling_key() {
    let dir = names(&["1-a.md", "readme.txt", "5-b.md", "notes.md", "3-c.md", "9-d.txt"]);
    assert_eq!(shown(&dir), names(&["5-b.md", "3-c.md", "1-a.md"]));
    let keys: Vec<u64> = display_order(&dir).iter().map(|note| note.key).collect();
    assert_eq!(keys, vec![5, 3, 1]);
}

#[test]
fn display_order_keeps_equal_keys_in_listing_order() {
    let dir = names(&["2-b.md", "7-x.md", "2-a.md", "02-c.md"]);
    assert_eq!(shown(&dir), names(&["7-x.md", "2-b.md", "2-a.md", "02-c.md"]));
}

#[test]
fn move_bottom_note_to_top_takes_the_key_above_the_highest() {
    let dir = names(&["5-five.md", "3-three.md", "1-one.md"]);
    let plan = reorder_note(&dir, "1-one.md", 0).unwrap();
    assert_eq!(plan.new_name, "6-one.md");
    assert_eq!(plan.renames, vec![rename("1-one.md", "6-one.md")]);
    let after = apply(&dir, &plan);
    assert!(after.contains(&"5-five.md".to_string()));
    assert!(after.contains(&"3-three.md".to_string()));
    assert_eq!(shown(&after), names(&["6-one.md", "5-five.md", "3-three.md"]));
}

#[test]
fn move_to_top_of_a_dense_list_puts_the_moved_note_highest() {
    let dir = names(&["5-five.md", "4-four.md", "3-three.md"]);
    let plan = reorder_note(&dir, "3-three.md", 0).unwrap();
    assert_eq!(plan.new_name, "6-three.md");
    assert_eq!(plan.renames, vec![rename("3-three.md", "6-three.md")]);
    assert_eq!(shown(&apply(&dir, &plan)), names(&["6-three.md", "5-five.md", "4-four.md"]));
}

#[test]
fn move_between_adjacent_keys_renumbers_everything_above_the_highest() {
    let dir = names(&["5-five.md", "4-four.md", "3-three.md"]);
    let plan = reorder_note(&dir, "3-three.md", 1).unwrap();
    assert_eq!(plan.new_name, "7-three.md");
    assert_eq!(
        plan.renames,
        vec![
            rename("5-five.md", "8-five.md"),
            rename("4-four.md", "6-four.md"),
            rename("3-three.md", "7-three.md"),
        ]
    );
    assert_eq!(shown(&apply(&dir, &plan)), names(&["8-five.md", "7-three.md", "6-four.md"]));
}

#[test]
fn move_into_a_gap_takes_the_key_above_the_lower_neighbour() {
    let dir = names(&["10-a.md", "7-b.md", "2-c.md", "1-d.md"]);
    let plan = reorder_note(&dir, "1-d.md", 1).unwrap();
    assert_eq!(plan.new_name, "8-d.md");
    assert_eq!(plan.renames, vec![rename("1-d.md", "8-d.md")]);
    assert_eq!(shown(&apply(&dir, &plan)), names(&["10-a.md", "8-d.md", "7-b.md", "2-c.md"]));
}

#[test]
fn a_gap_of_exactly_one_is_no_gap() {
    let dir = names(&["9-a.md", "4-b.md", "3-c.md", "1-d.md"]);
    let plan = reorder_note(&dir, "9-a.md", 1).unwrap();
    assert_eq!(plan.new_name, "12-a.md");
    assert_eq!(
        plan.renames,
        vec![
            rename("4-b.md", "13-b.md"),
            rename("3-c.md", "11-c.md"),
            rename("1-d.md", "10-d.md"),
            rename("9-a.md", "12-a.md"),
        ]
    );
    assert_eq!(
        shown(&apply(&dir, &plan)),
        names(&["13-b.md", "12-a.md", "11-c.md", "10-d.md"])
    );
}

#[test]
fn move_to_bottom_takes_key_one_when_it_is_free() {
    let dir = names(&["9-a.md", "4-b.md", "3-c.md"]);
    let plan = reorder_note(&dir, "9-a.md", 2).unwrap();
    assert_eq!(plan.new_name, "1-a.md");
    assert_eq!(plan.renames, vec![rename("9-a.md", "1-a.md")]);
    assert_eq!(shown(&apply(&dir, &plan)), names(&["4-b.md", "3-c.md", "1-a.md"]));
}

#[test]
fn move_to_bottom_renumbers_when_key_one_is_taken() {
    let dir = names(&["9-a.md", "4-b.md", "1-c.md"]);
    let plan = reorder_note(&dir, "9-a.md", 2).unwrap();
    assert_eq!(plan.new_name, "10-a.md");
    assert_eq!(
        plan.renames,
        vec![rename("4-b.md", "12-b.md"), rename("1-c.md", "11-c.md"), rename("9-a.md", "10-a.md")]
    );
}

#[test]
fn index_beyond_the_end_is_the_bottom() {
    let dir = names(&["9-a.md", "4-b.md", "3-c.md"]);
    let far = reorder_note(&dir, "9-a.md", 100).unwrap();
    let last = reorder_note(&dir, "9-a.md", 2).unwrap();
    assert_eq!(far, last);
    let staying = reorder_note(&dir, "3-c.md", usize::MAX).unwrap();
    assert_eq!(staying.new_name, "1-c.md");
    assert_eq!(staying.renames, vec![rename("3-c.md", "1-c.md")]);
}

#[test]
fn move_to_own_place_renames_nothing() {
    let dir = names(&["5-five.md", "4-four.md", "3-three.md", "x.txt"]);
    for (at, name) in ["5-five.md", "4-four.md", "3-three.md"].iter().enumerate() {
        let plan = reorder_note(&dir, name, at).unwrap();
        assert!(plan.renames.is_empty());
        assert_eq!(plan.new_name, *name);
    }
}

#[test]
fn a_single_note_stays_as_it_is() {
    let dir = names(&["5-only.md", "tasks.txt"]);
    let plan = reorder_note(&dir, "5-only.md", 3).unwrap();
    assert!(plan.renames.is_empty());
    assert_eq!(plan.new_name, "5-only.md");
}

#[test]
fn unknown_or_unnumbered_note_is_not_found() {
    let dir = names(&["5-five.md", "4-four.md", "plain.md", "3-x.txt"]);
    assert_eq!(reorder_note(&dir, "9-nine.md", 0), Err(ReorderError::NoteNotFound));
    assert_eq!(reorder_note(&dir, "plain.md", 0), Err(ReorderError::NoteNotFound));
    assert_eq!(reorder_note(&dir, "3-x.txt", 0), Err(ReorderError::NoteNotFound));
    assert_eq!(reorder_note(&Vec::new(), "5-five.md", 0), Err(ReorderError::NoteNotFound));
}

#[test]
fn keys_that_do_not_fit_are_refused() {
    let top = names(&["18446744073709551615-a.md", "3-b.md"]);
    assert_eq!(reorder_note(&top, "3-b.md", 0), Err(ReorderError::KeyOverflow));
    let dense = names(&["18446744073709551615-a.md", "18446744073709551614-b.md", "3-c.md"]);
    assert_eq!(reorder_note(&dense, "3-c.md", 1), Err(ReorderError::KeyOverflow));
}

#[test]
fn moved_note_keeps_its_slug() {
    let dir = names(&["5-a.md", "3-my-long-title.md", "1-.md"]);
    assert_eq!(reorder_note(&dir, "3-my-long-title.md", 0).unwrap().new_name, "6-my-long-title.md");
    assert_eq!(reorder_note(&dir, "1-.md", 0).unwrap().new_name, "6-untitled.md");
}

#[test]
fn equal_keys_are_told_apart_by_a_full_renumbering() {
    let dir = names(&["4-a.md", "4-b.md", "2-c.md"]);
    let plan = reorder_note(&dir, "2-c.md", 1).unwrap();
    assert_eq!(
        plan.renames,
        vec![rename("4-a.md", "7-a.md"), rename("4-b.md", "5-b.md"), rename("2-c.md", "6-c.md")]
    );
    assert_eq!(shown(&apply(&dir, &plan)), names(&["7-a.md", "6-c.md", "5-b.md"]));
}

#[test]
fn errors_are_reported_in_words() {
    assert_eq!(ReorderError::NoteNotFound.message(), "Note not found");
    assert_eq!(ReorderError::KeyOverflow.message(), "Note number out of range");
}

use note_store::state::AppState;
use std::sync::Mutex;
use note_store::workspace::{
    copy_workspace, init_workspaces, StoredConfig, Workspace, WorkspaceConfig, WorkspaceError,
};

fn workspace(id: &str, name: &str, shortcut: Option<&str>) -> Workspace {
    Workspace { id: id.to_string(), name: name.to_string(), shortcut: shortcut.map(|s| s.to_string()) }
}

fn config(list: &[Workspace], active: &str) -> WorkspaceConfig {
    WorkspaceConfig { workspaces: list.to_vec(), active_workspace_id: active.to_string() }
}

fn two() -> WorkspaceConfig {
    config(
        &[workspace("Personal", "Personal", Some("1")), workspace("work", "Work", Some("2"))],
        "Personal",
    )
}

#[test]
fn first_start_has_the_personal_workspace() {
    let made = init_workspaces(StoredConfig::Missing);
    assert_eq!(made, config(&[workspace("Personal", "Personal", Some("1"))], "Personal"));
}

#[test]
fn stored_configuration_is_taken_as_it_is() {
    assert_eq!(init_workspaces(StoredConfig::Loaded(two())), two());
}

#[test]
fn unreadable_configuration_gives_the_first_one() {
    assert_eq!(
        init_workspaces(StoredConfig::Unreadable),
        config(&[workspace("Personal", "Personal", Some("1"))], "Personal")
    );
}

#[test]
fn stored_configuration_with_a_stale_active_id_activates_its_first_workspace() {
    let mut stale = two();
    stale.active_workspace_id = "gone".to_string();
    let mut expected = two();
    expected.active_workspace_id = "Personal".to_string();
    assert_eq!(init_workspaces(StoredConfig::Loaded(stale)), expected);
    let other = config(&[workspace("b", "B", None), workspace("a", "A", None)], "");
    assert_eq!(
        init_workspaces(StoredConfig::Loaded(other)),
        config(&[workspace("b", "B", None), workspace("a", "A", None)], "b")
    );
}

#[test]
fn stored_configuration_without_workspaces_gives_the_first_one() {
    assert_eq!(
        init_workspaces(StoredConfig::Loaded(config(&[], ""))),
        init_workspaces(StoredConfig::Missing)
    );
    assert_eq!(
        init_workspaces(StoredConfig::Loaded(config(&[], "Personal"))),
        init_workspaces(StoredConfig::Missing)
    );
}

#[test]
fn stored_configuration_with_a_doubled_identifier_gives_the_first_one() {
    let doubled = config(&[workspace("a", "A", None), workspace("b", "B", None), workspace("a", "C", None)], "a");
    assert_eq!(init_workspaces(StoredConfig::Loaded(doubled)), init_workspaces(StoredConfig::Missing));
}

#[test]
fn settled_configuration_always_has_an_active_workspace() {
    let candidates = [
        StoredConfig::Missing,
        StoredConfig::Unreadable,
        StoredConfig::Loaded(two()),
        StoredConfig::Loaded(config(&[], "x")),
        StoredConfig::Loaded(config(&[workspace("a", "A", None)], "b")),
        StoredConfig::Loaded(config(&[workspace("a", "A", None), workspace("a", "B", None)], "a")),
    ];
    for stored in candidates {
        let settled = init_workspaces(stored);
        assert!(!settled.workspaces.is_empty());
        assert!(settled.workspaces.iter().any(|w| w.id == settled.active_workspace_id));
        assert!(settled.has_distinct_ids());
    }
}

#[test]
fn distinct_identifiers_are_told_from_doubled_ones() {
    assert!(two().has_distinct_ids());
    assert!(config(&[], "").has_distinct_ids());
    assert!(!config(&[workspace("a", "A", None), workspace("a", "B", None)], "a").has_distinct_ids());
}

#[test]
fn deleting_the_active_workspace_of_two_activates_the_other() {
    let mut first_active = two();
    assert_eq!(first_active.delete_workspace("Personal".to_string()), Ok(()));
    assert_eq!(first_active, config(&[workspace("work", "Work", Some("2"))], "work"));
    let mut second_active = two();
    second_active.active_workspace_id = "work".to_string();
    assert_eq!(second_active.delete_workspace("work".to_string()), Ok(()));
    assert_eq!(second_active, config(&[workspace("Personal", "Personal", Some("1"))], "Personal"));
}

#[test]
fn deleting_another_workspace_keeps_the_active_one() {
    let mut c = two();
    assert_eq!(c.delete_workspace("work".to_string()), Ok(()));
    assert_eq!(c, config(&[workspace("Personal", "Personal", Some("1"))], "Personal"));
}

#[test]
fn deleting_the_active_workspace_activates_the_first_that_remains() {
    let mut c = config(
        &[workspace("a", "A", None), workspace("b", "B", None), workspace("c", "C", None)],
        "b",
    );
    assert_eq!(c.delete_workspace("b".to_string()), Ok(()));
    assert_eq!(c, config(&[workspace("a", "A", None), workspace("c", "C", None)], "a"));
}

#[test]
fn the_last_workspace_cannot_be_deleted() {
    let mut c = config(&[workspace("Personal", "Personal", Some("1"))], "Personal");
    let before = c.clone();
    assert_eq!(c.delete_workspace("Personal".to_string()), Err(WorkspaceError::LastWorkspace));
    assert_eq!(c.delete_workspace("nothing".to_string()), Err(WorkspaceError::LastWorkspace));
    assert_eq!(c, before);
}

#[test]
fn deleting_an_unknown_workspace_is_refused() {
    let mut c = two();
    assert_eq!(c.delete_workspace("nothing".to_string()), Err(WorkspaceError::NotFound));
    assert_eq!(c, two());
}

#[test]
fn set_active_needs_an_existing_workspace() {
    let mut c = two();
    assert_eq!(c.set_active_workspace("work".to_string()), Ok(()));
    assert_eq!(c.active_workspace_id, "work");
    assert_eq!(c.workspaces, two().workspaces);
    assert_eq!(c.set_active_workspace("nothing".to_string()), Err(WorkspaceError::NotFound));
    assert_eq!(c.active_workspace_id, "work");
}

#[test]
fn created_workspace_has_slug_as_id_and_lowest_free_shortcut() {
    let c = two();
    assert_eq!(
        c.create_workspace("Side Projects!".to_string()),
        Ok(workspace("side-projects", "Side Projects!", Some("3")))
    );
    let gap = config(&[workspace("a", "A", Some("2")), workspace("b", "B", Some("1")), workspace("c", "C", Some("4"))], "a");
    assert_eq!(gap.create_workspace("D".to_string()), Ok(workspace("d", "D", Some("3"))));
}

#[test]
fn tenth_workspace_has_no_shortcut() {
    let mut list = Vec::new();
    for n in 1..=9 {
        list.push(workspace(&format!("w{}", n), "W", Some(&n.to_string())));
    }
    let c = config(&list, "w1");
    assert_eq!(c.create_workspace("Ten".to_string()), Ok(workspace("ten", "Ten", None)));
}

#[test]
fn workspace_name_must_give_an_identifier() {
    let c = two();
    assert_eq!(c.create_workspace("".to_string()), Err(WorkspaceError::InvalidName));
    assert_eq!(c.create_workspace("?? !!".to_string()), Err(WorkspaceError::InvalidName));
}

#[test]
fn workspace_identifier_must_be_new() {
    let c = two();
    assert_eq!(c.create_workspace("WORK".to_string()), Err(WorkspaceError::AlreadyExists));
    assert_eq!(c.create_workspace(" work ".to_string()), Err(WorkspaceError::AlreadyExists));
}

#[test]
fn added_workspace_comes_last() {
    let mut c = two();
    let made = c.create_workspace("Play".to_string()).unwrap();
    c.add_workspace(made.clone());
    assert_eq!(c.workspaces.len(), 3);
    assert_eq!(c.workspaces[2], made);
    assert_eq!(c.active_workspace_id, "Personal");
}

#[test]
fn renaming_changes_the_name_only() {
    let mut c = two();
    assert_eq!(
        c.rename_workspace("work".to_string(), "Day Job".to_string()),
        Ok(workspace("work", "Day Job", Some("2")))
    );
    assert_eq!(
        c,
        config(
            &[workspace("Personal", "Personal", Some("1")), workspace("work", "Day Job", Some("2"))],
            "Personal"
        )
    );
    assert_eq!(
        c.rename_workspace("nothing".to_string(), "X".to_string()),
        Err(WorkspaceError::NotFound)
    );
}

#[test]
fn find_gives_the_place_of_a_workspace() {
    let c = two();
    assert_eq!(c.find(&"work".to_string()), Some(1));
    assert_eq!(c.find(&"Personal".to_string()), Some(0));
    assert_eq!(c.find(&"personal".to_string()), None);
}

#[test]
fn copy_of_a_workspace_equals_it() {
    let w = workspace("work", "Work", Some("2"));
    assert_eq!(copy_workspace(&w), w);
    let plain = workspace("a", "A", None);
    assert_eq!(copy_workspace(&plain), plain);
}

#[test]
fn workspace_errors_are_reported_in_words() {
    assert_eq!(WorkspaceError::NotFound.message(), "Workspace not found");
    assert_eq!(WorkspaceError::AlreadyExists.message(), "Workspace already exists");
    assert_eq!(WorkspaceError::InvalidName.message(), "Invalid workspace name");
    assert_eq!(WorkspaceError::LastWorkspace.message(), "Cannot delete the last workspace");
}

#[test]
fn state_holds_the_configuration_behind_its_lock() {
    let state = AppState { config: Mutex::new(two()) };
    assert_eq!(*state.config.lock().unwrap(), two());
    state.config.lock().unwrap().set_active_workspace("work".to_string()).unwrap();
    assert_eq!(state.config.lock().unwrap().active_workspace_id, "work");
}

use note_store::paths::{config_path_in, get_config_path, get_notes_root, get_workspace_dir};
use std::path::{Path, PathBuf};

#[test]
fn notes_root_is_the_notes_folder_of_the_documents() {
    let documents = Some("/home/alice/Documents".to_string());
    assert_eq!(PathBuf::from(get_notes_root(&documents)), Path::new("/home/alice/Documents").join("Notes"));
}

#[test]
fn notes_root_falls_back_to_the_current_directory() {
    assert_eq!(PathBuf::from(get_notes_root(&None)), Path::new(".").join("Notes"));
}

#[test]
fn workspace_directory_is_named_by_the_identifier() {
    let documents = Some("/home/alice/Documents".to_string());
    assert_eq!(
        PathBuf::from(get_workspace_dir(&documents, "work")),
        Path::new("/home/alice/Documents").join("Notes").join("work")
    );
    assert_eq!(
        PathBuf::from(get_workspace_dir(&None, "Personal")),
        Path::new(".").join("Notes").join("Personal")
    );
}

#[test]
fn configuration_lies_in_the_application_folder_of_the_data_directory() {
    let data = Some("/home/alice/.local/share".to_string());
    assert_eq!(
        PathBuf::from(config_path_in(&data)),
        Path::new("/home/alice/.local/share").join("com.write.app").join("workspaces.json")
    );
    assert_eq!(
        PathBuf::from(config_path_in(&None)),
        Path::new(".").join("com.write.app").join("workspaces.json")
    );
}

#[test]
fn configuration_on_this_system_ends_as_it_should() {
    assert!(Path::new(&get_config_path())
        .ends_with(Path::new("com.write.app").join("workspaces.json")));
}

#[test]
fn workspace_directory_lies_in_the_notes_root() {
    for documents in [None, Some("/srv/docs".to_string()), Some("relative/docs".to_string())] {
        assert_eq!(
            PathBuf::from(get_workspace_dir(&documents, "work")),
            Path::new(&get_notes_root(&documents)).join("work")
        );
    }
}

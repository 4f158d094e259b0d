//! The workspace directory resolver: where the notes of a workspace lie,
//! and where the configuration is kept.
//!
//! The notes lie under the user's document directory. Finding that
//! directory means reading a file of the user's, so the caller finds it and
//! hands it over; where the system has none, the current directory stands
//! in for it.

use std::path::Path;
use vstd::prelude::*;

verus! {

/// The path that `Path::join` gives for `base` extended by `part`, on the
/// platform the library is built for.
pub uninterp spec fn joined(base: Seq<char>, part: Seq<char>) -> Seq<char>;

/// `Path::join` adjoins `part` to `base`; the result depends on the two
/// paths alone.
#[verifier::external_body]
fn join(base: &str, part: &str) -> (path: String)
    ensures
        path@ == joined(base@, part@),
{
    Path::new(base).join(part).to_string_lossy().into_owned()
}

/// `dirs::data_dir` gives the user's data directory as the system has it,
/// or nothing; what it gives depends on the environment. A directory whose
/// name is not valid UTF-8 comes back with the offending bytes replaced.
#[verifier::external_body]
fn data_dir() -> (dir: Option<String>) {
    match dirs::data_dir() {
        Some(path) => Some(path.to_string_lossy().into_owned()),
        None => None,
    }
}

/// The directory that stands in for one that the system does not have:
/// the current directory.
pub open spec fn here() -> Seq<char> {
    seq!['.']
}

/// The name of the directory that holds all notes.
pub open spec fn notes_folder() -> Seq<char> {
    seq!['N', 'o', 't', 'e', 's']
}

/// The name of the directory that holds the configuration.
pub open spec fn app_folder() -> Seq<char> {
    seq!['c', 'o', 'm', '.', 'w', 'r', 'i', 't', 'e', '.', 'a', 'p', 'p']
}

/// The name of the file that holds the configuration.
pub open spec fn config_file() -> Seq<char> {
    seq!['w', 'o', 'r', 'k', 's', 'p', 'a', 'c', 'e', 's', '.', 'j', 's', 'o', 'n']
}

/// The directory to build on: the one that the system gave, or the
/// current directory where it gave none.
pub open spec fn base_of(found: Option<String>) -> Seq<char> {
    match found {
        Some(dir) => dir@,
        None => here(),
    }
}

/// The root of the store under the document directory `documents`.
pub open spec fn notes_root_of(documents: Option<String>) -> Seq<char> {
    joined(base_of(documents), notes_folder())
}

/// The directory of the workspace `workspace_id` under the document
/// directory `documents`.
pub open spec fn workspace_dir_of(documents: Option<String>, workspace_id: Seq<char>) -> Seq<
    char,
> {
    joined(notes_root_of(documents), workspace_id)
}

/// The place of the configuration under the data directory `data`.
pub open spec fn config_path_of(data: Option<String>) -> Seq<char> {
    joined(joined(base_of(data), app_folder()), config_file())
}

/// The directory to build on, given what the system has.
fn base_dir(found: &Option<String>) -> (base: String)
    ensures
        base@ == base_of(*found),
{
    match found {
        Some(dir) => dir.clone(),
        None => {
            proof {
                reveal_strlit(".");
                assert("."@ =~= here());
            }
            ".".to_owned()
        },
    }
}

/// The root of the store, given the user's document directory as the
/// system reports it: the directory `Notes` in it, or in the current
/// directory where the system has no document directory.
pub fn get_notes_root(documents: &Option<String>) -> (root: String)
    ensures
        root@ == notes_root_of(*documents),
{
    let base = base_dir(documents);
    proof {
        reveal_strlit("Notes");
        assert("Notes"@ =~= notes_folder());
    }
    join(base.as_str(), "Notes")
}

/// The directory of a workspace, given the user's document directory as
/// the system reports it: the directory named by the workspace's identifier
/// in the root of the store.
pub fn get_workspace_dir(documents: &Option<String>, workspace_id: &str) -> (dir: String)
    ensures
        dir@ == workspace_dir_of(*documents, workspace_id@),
{
    let root = get_notes_root(documents);
    join(root.as_str(), workspace_id)
}

/// The place of the configuration, given the user's data directory: the
/// file `workspaces.json` in the directory `com.write.app` in it, or in
/// the current directory where the system has no data directory.
pub fn config_path_in(data: &Option<String>) -> (path: String)
    ensures
        path@ == config_path_of(*data),
{
    let base = base_dir(data);
    proof {
        reveal_strlit("com.write.app");
        reveal_strlit("workspaces.json");
        assert("com.write.app"@ =~= app_folder());
        assert("workspaces.json"@ =~= config_file());
    }
    let folder = join(base.as_str(), "com.write.app");
    join(folder.as_str(), "workspaces.json")
}

/// The place of the configuration on this system.
pub fn get_config_path() -> (path: String)
    ensures
        exists|data: Option<String>| path@ == config_path_of(data),
{
    let data = data_dir();
    config_path_in(&data)
}

} // verus!

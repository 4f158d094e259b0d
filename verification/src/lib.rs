//! An ordered note store whose display order lives in the file names.
//!
//! Every note is one Markdown file named `{number}-{slug}.md`. The number is
//! the note's ordering key: notes are shown by falling key, and a note is
//! moved by renaming files. The slug is derived from the note's title.

pub mod codec;
pub mod listing;
pub mod migration;
pub mod notes;
pub mod numbering;
pub mod order;
pub mod outcome;
pub mod paths;
pub mod seqs;
pub mod slug;
pub mod sorting;
pub mod state;
pub mod text;
pub mod title;
pub mod workspace;

pub use crate::codec::{format_filename, is_old_timestamp_format, parse_file_number};
pub use crate::listing::{list_notes, FoundFile, NoteEntry};
pub use crate::migration::{legacy_files, migration_target};
pub use crate::notes::{new_note_name, notes_to_adopt, rename_note, rename_on_save};
pub use crate::numbering::get_next_number;
pub use crate::order::{reorder_note, Rename, ReorderError, ReorderPlan};
pub use crate::paths::{get_config_path, get_notes_root, get_workspace_dir};
pub use crate::slug::slugify;
pub use crate::state::AppState;
pub use crate::title::parse_title;
pub use crate::workspace::{init_workspaces, StoredConfig, Workspace, WorkspaceConfig, WorkspaceError};

//! Workspaces: named collections of notes, each with a directory of its
//! own, and the record of which of them is active.

use crate::codec::digit_char;
use crate::seqs::{lemma_absent, lemma_first_index};
use crate::slug::{slug_of, slugify};
use vstd::prelude::*;

verus! {

/// A workspace: its identifier, which names its directory, the name under
/// which it is shown, and the digit that switches to it.
#[derive(Clone, Debug, PartialEq, Eq)]
pub struct Workspace {
    pub id: String,
    pub name: String,
    pub shortcut: Option<String>,
}

/// A workspace as character sequences.
pub struct WorkspaceView {
    pub id: Seq<char>,
    pub name: Seq<char>,
    pub shortcut: Option<Seq<char>>,
}

impl View for Workspace {
    type V = WorkspaceView;

    open spec fn view(&self) -> WorkspaceView {
        WorkspaceView {
            id: self.id@,
            name: self.name@,
            shortcut: match self.shortcut {
                Some(s) => Some(s@),
                None => None,
            },
        }
    }
}

/// All workspaces, and the identifier of the active one.
#[derive(Clone, Debug, PartialEq, Eq)]
pub struct WorkspaceConfig {
    pub workspaces: Vec<Workspace>,
    pub active_workspace_id: String,
}

/// A configuration as character sequences.
pub struct ConfigView {
    pub workspaces: Seq<WorkspaceView>,
    pub active: Seq<char>,
}

impl View for WorkspaceConfig {
    type V = ConfigView;

    open spec fn view(&self) -> ConfigView {
        ConfigView {
            workspaces: self.workspaces@.map_values(|w: Workspace| w@),
            active: self.active_workspace_id@,
        }
    }
}

/// Why an operation on the workspaces is refused.
#[derive(Clone, Copy, Debug, PartialEq, Eq)]
pub enum WorkspaceError {
    /// No workspace has the identifier.
    NotFound,
    /// A workspace with the identifier exists already.
    AlreadyExists,
    /// The name gives no usable identifier.
    InvalidName,
    /// The last workspace cannot be deleted.
    LastWorkspace,
}

/// The identifiers of the workspaces, in order.
pub open spec fn ids_of(config: ConfigView) -> Seq<Seq<char>> {
    config.workspaces.map_values(|w: WorkspaceView| w.id)
}

/// True when no two workspaces share an identifier.
pub open spec fn has_distinct_ids(config: ConfigView) -> bool {
    forall|i: int, j: int|
        0 <= i < j < config.workspaces.len() ==> (#[trigger] config.workspaces[i]).id != (
        #[trigger] config.workspaces[j]).id
}

/// True when the configuration is sound: there is a workspace, no two
/// workspaces share an identifier, and the active identifier is that of a
/// workspace.
pub open spec fn is_sound(config: ConfigView) -> bool {
    &&& config.workspaces.len() >= 1
    &&& has_distinct_ids(config)
    &&& ids_of(config).contains(config.active)
}

/// The word `Personal`, which names the first workspace.
pub open spec fn personal() -> Seq<char> {
    seq!['P', 'e', 'r', 's', 'o', 'n', 'a', 'l']
}

/// The configuration of a store that has never been configured: the one
/// workspace `Personal`, active and reached by the digit 1.
pub open spec fn first_config() -> ConfigView {
    ConfigView {
        workspaces: seq![
            WorkspaceView { id: personal(), name: personal(), shortcut: Some(seq!['1']) },
        ],
        active: personal(),
    }
}

/// The configuration that a stored record settles into: the record itself
/// where it is sound; the record with its first workspace made active where
/// only the active identifier names no workspace; and the first
/// configuration where the record has no workspace or has two workspaces
/// under one identifier.
pub open spec fn settled(record: ConfigView) -> ConfigView {
    if is_sound(record) {
        record
    } else if record.workspaces.len() >= 1 && has_distinct_ids(record) {
        ConfigView { workspaces: record.workspaces, active: record.workspaces[0].id }
    } else {
        first_config()
    }
}

/// What was found where the configuration is kept.
#[derive(Clone, Debug, PartialEq, Eq)]
pub enum StoredConfig {
    /// Nothing has been stored yet.
    Missing,
    /// A record exists and cannot be read.
    Unreadable,
    /// The record that was stored.
    Loaded(WorkspaceConfig),
}

/// A copy of the workspace.
pub fn copy_workspace(workspace: &Workspace) -> (copy: Workspace)
    ensures
        copy == *workspace,
{
    Workspace {
        id: workspace.id.clone(),
        name: workspace.name.clone(),
        shortcut: match &workspace.shortcut {
            Some(s) => Some(s.clone()),
            None => None,
        },
    }
}

/// The configuration of a store that has never been configured.
fn first_configuration() -> (config: WorkspaceConfig)
    ensures
        config@ == first_config(),
        is_sound(config@),
{
    proof {
        reveal_strlit("Personal");
        reveal_strlit("1");
        assert("Personal"@ =~= personal());
        assert("1"@ =~= seq!['1']);
    }
    let mut workspaces: Vec<Workspace> = Vec::new();
    workspaces.push(
        Workspace {
            id: "Personal".to_owned(),
            name: "Personal".to_owned(),
            shortcut: Some("1".to_owned()),
        },
    );
    let config = WorkspaceConfig { workspaces, active_workspace_id: "Personal".to_owned() };
    assert(config@.workspaces =~= first_config().workspaces);
    assert(ids_of(config@)[0] == personal());
    config
}

/// Settles the configuration at start, so that there is a workspace and the
/// active identifier names one: the first configuration where nothing was
/// stored or the record cannot be read, and otherwise the stored record,
/// set right where it is not sound.
pub fn init_workspaces(stored: StoredConfig) -> (config: WorkspaceConfig)
    ensures
        is_sound(config@),
        match stored {
            StoredConfig::Loaded(record) => config@ == settled(record@) && (is_sound(record@)
                ==> config == record),
            StoredConfig::Missing => config@ == first_config(),
            StoredConfig::Unreadable => config@ == first_config(),
        },
{
    match stored {
        StoredConfig::Loaded(record) => {
            if record.workspaces.len() >= 1 && record.has_distinct_ids() {
                match record.find(&record.active_workspace_id) {
                    Some(_) => {
                        proof {
                            ids_of(record@).index_of_first_ensures(record.active_workspace_id@);
                        }
                        record
                    },
                    None => {
                        let mut config = record;
                        config.active_workspace_id = config.workspaces[0].id.clone();
                        assert(ids_of(config@)[0] == config@.active);
                        config
                    },
                }
            } else {
                first_configuration()
            }
        },
        StoredConfig::Missing => first_configuration(),
        StoredConfig::Unreadable => first_configuration(),
    }
}

/// The place of the workspace `id` among the workspaces, if it is one.
pub open spec fn place_of(config: ConfigView, id: Seq<char>) -> Option<int> {
    ids_of(config).index_of_first(id)
}

/// The configuration with `id` made active; refused where no workspace has
/// that identifier.
pub open spec fn activated(config: ConfigView, id: Seq<char>) -> Result<
    ConfigView,
    WorkspaceError,
> {
    if ids_of(config).contains(id) {
        Ok(ConfigView { workspaces: config.workspaces, active: id })
    } else {
        Err(WorkspaceError::NotFound)
    }
}

/// The shortcut that the digit `n` gives.
pub open spec fn shortcut_digit(n: int) -> Seq<char> {
    seq![digit_char(n as nat)]
}

/// True when a workspace is reached by the digit `n`.
pub open spec fn shortcut_taken(config: ConfigView, n: int) -> bool {
    exists|i: int|
        0 <= i < config.workspaces.len() && (#[trigger] config.workspaces[i]).shortcut == Some(
            shortcut_digit(n),
        )
}

/// The lowest digit from `n` to 9 that reaches no workspace, as a shortcut.
pub open spec fn free_shortcut_from(config: ConfigView, n: int) -> Option<Seq<char>>
    decreases 10 - n,
{
    if n > 9 {
        None
    } else if !shortcut_taken(config, n) {
        Some(shortcut_digit(n))
    } else {
        free_shortcut_from(config, n + 1)
    }
}

/// The workspace that the name `name` creates: its slug as identifier, and
/// the lowest free digit from 1 to 9 as shortcut. Refused where the name
/// has no slug, and where a workspace has that identifier already.
pub open spec fn created(config: ConfigView, name: Seq<char>) -> Result<
    WorkspaceView,
    WorkspaceError,
> {
    if slug_of(name).len() == 0 {
        Err(WorkspaceError::InvalidName)
    } else if ids_of(config).contains(slug_of(name)) {
        Err(WorkspaceError::AlreadyExists)
    } else {
        Ok(WorkspaceView { id: slug_of(name), name, shortcut: free_shortcut_from(config, 1) })
    }
}

/// The configuration with one more workspace at the end.
pub open spec fn added(config: ConfigView, workspace: WorkspaceView) -> ConfigView {
    ConfigView { workspaces: config.workspaces.push(workspace), active: config.active }
}

/// The configuration without the workspace `id`. Where that workspace was
/// active, the first of those that remain becomes active. Refused where it
/// is the only workspace, and where no workspace has that identifier.
pub open spec fn deleted(config: ConfigView, id: Seq<char>) -> Result<ConfigView, WorkspaceError> {
    if config.workspaces.len() <= 1 {
        Err(WorkspaceError::LastWorkspace)
    } else {
        match place_of(config, id) {
            None => Err(WorkspaceError::NotFound),
            Some(at) => {
                let rest = config.workspaces.remove(at);
                Ok(
                    ConfigView {
                        workspaces: rest,
                        active: if config.active == id {
                            rest[0].id
                        } else {
                            config.active
                        },
                    },
                )
            },
        }
    }
}

/// The workspace `id` under the name `name`.
pub open spec fn with_name(config: ConfigView, at: int, name: Seq<char>) -> WorkspaceView {
    WorkspaceView {
        id: config.workspaces[at].id,
        name,
        shortcut: config.workspaces[at].shortcut,
    }
}

/// The configuration with the workspace `id` shown under the name `name`;
/// its identifier stays. Refused where no workspace has that identifier.
pub open spec fn renamed(config: ConfigView, id: Seq<char>, name: Seq<char>) -> Result<
    ConfigView,
    WorkspaceError,
> {
    match place_of(config, id) {
        None => Err(WorkspaceError::NotFound),
        Some(at) => Ok(
            ConfigView {
                workspaces: config.workspaces.update(at, with_name(config, at, name)),
                active: config.active,
            },
        ),
    }
}

impl WorkspaceConfig {
    /// The place of the workspace `id`, if it is one.
    pub fn find(&self, id: &String) -> (place: Option<usize>)
        ensures
            match place {
                Some(at) => at < self.workspaces.len() && place_of(self@, id@) == Some(at as int),
                None => place_of(self@, id@) is None && !ids_of(self@).contains(id@),
            },
    {
        let mut i: usize = 0;
        while i < self.workspaces.len()
            invariant
                i <= self.workspaces.len(),
                forall|j: int| 0 <= j < i ==> ids_of(self@)[j] != id@,
            decreases self.workspaces.len() - i,
        {
            if self.workspaces[i].id == *id {
                proof {
                    assert(ids_of(self@)[i as int] == id@);
                    lemma_first_index(ids_of(self@), id@, i as int);
                }
                return Some(i);
            }
            i += 1;
        }
        proof {
            lemma_absent(ids_of(self@), id@);
        }
        None
    }

    /// Tells whether no two workspaces share an identifier.
    pub fn has_distinct_ids(&self) -> (distinct: bool)
        ensures
            distinct == has_distinct_ids(self@),
    {
        let n: usize = self.workspaces.len();
        let mut j: usize = 0;
        while j < n
            invariant
                j <= n,
                n == self.workspaces.len(),
                forall|a: int, b: int|
                    0 <= a < b < j ==> (#[trigger] self@.workspaces[a]).id != (
                    #[trigger] self@.workspaces[b]).id,
            decreases n - j,
        {
            let mut i: usize = 0;
            while i < j
                invariant
                    i <= j < n,
                    n == self.workspaces.len(),
                    forall|a: int|
                        0 <= a < i ==> (#[trigger] self@.workspaces[a]).id
                            != self@.workspaces[j as int].id,
                decreases j - i,
            {
                if self.workspaces[i].id == self.workspaces[j].id {
                    assert(self@.workspaces[i as int].id == self@.workspaces[j as int].id);
                    return false;
                }
                i += 1;
            }
            j += 1;
        }
        true
    }

    /// Makes the workspace `workspace_id` the active one.
    pub fn set_active_workspace(&mut self, workspace_id: String) -> (result: Result<
        (),
        WorkspaceError,
    >)
        ensures
            match result {
                Ok(_) => activated(old(self)@, workspace_id@) == Ok::<ConfigView, WorkspaceError>(
                    final(self)@,
                ),
                Err(e) => activated(old(self)@, workspace_id@) == Err::<
                    ConfigView,
                    WorkspaceError,
                >(e) && *final(self) == *old(self),
            },
            is_sound(old(self)@) ==> is_sound(final(self)@),
    {
        match self.find(&workspace_id) {
            None => Err(WorkspaceError::NotFound),
            Some(at) => {
                proof {
                    ids_of(self@).index_of_first_ensures(workspace_id@);
                }
                self.active_workspace_id = workspace_id;
                Ok(())
            },
        }
    }

    /// Tells whether a workspace is reached by the digit `n`.
    fn is_shortcut_taken(&self, n: u8) -> (taken: bool)
        requires
            1 <= n <= 9,
        ensures
            taken == shortcut_taken(self@, n as int),
    {
        let mut digit = String::new();
        digit.push(('0' as u8 + n) as char);
        assert(digit@ =~= shortcut_digit(n as int));
        let mut i: usize = 0;
        while i < self.workspaces.len()
            invariant
                i <= self.workspaces.len(),
                digit@ == shortcut_digit(n as int),
                forall|j: int|
                    0 <= j < i ==> (#[trigger] self@.workspaces[j]).shortcut != Some(
                        shortcut_digit(n as int),
                    ),
            decreases self.workspaces.len() - i,
        {
            let same: bool = match &self.workspaces[i].shortcut {
                Some(s) => *s == digit,
                None => false,
            };
            if same {
                assert(self@.workspaces[i as int].shortcut == Some(shortcut_digit(n as int)));
                return true;
            }
            i += 1;
        }
        false
    }

    /// Makes the workspace that the name `name` creates, without adding it.
    pub fn create_workspace(&self, name: String) -> (result: Result<Workspace, WorkspaceError>)
        ensures
            match result {
                Ok(workspace) => created(self@, name@) == Ok::<WorkspaceView, WorkspaceError>(
                    workspace@,
                ),
                Err(e) => created(self@, name@) == Err::<WorkspaceView, WorkspaceError>(e),
            },
    {
        let id = slugify(name.as_str());
        if id.as_str().is_empty() {
            return Err(WorkspaceError::InvalidName);
        }
        if self.find(&id).is_some() {
            proof {
                ids_of(self@).index_of_first_ensures(id@);
            }
            return Err(WorkspaceError::AlreadyExists);
        }
        let mut shortcut: Option<String> = None;
        let mut n: u8 = 1;
        while n <= 9 && shortcut.is_none()
            invariant
                1 <= n <= 10,
                match shortcut {
                    Some(s) => free_shortcut_from(self@, 1) == Some(s@),
                    None => free_shortcut_from(self@, 1) == free_shortcut_from(self@, n as int),
                },
            decreases 10 - n + if shortcut is None { 1int } else { 0int },
        {
            if !self.is_shortcut_taken(n) {
                let mut digit = String::new();
                digit.push(('0' as u8 + n) as char);
                assert(digit@ =~= shortcut_digit(n as int));
                shortcut = Some(digit);
            } else {
                n += 1;
            }
        }
        Ok(Workspace { id, name, shortcut })
    }

    /// Adds a workspace at the end.
    pub fn add_workspace(&mut self, workspace: Workspace)
        ensures
            final(self)@ == added(old(self)@, workspace@),
            is_sound(old(self)@) && !ids_of(old(self)@).contains(workspace@.id) ==> is_sound(
                final(self)@,
            ),
    {
        let ghost before = self@;
        self.workspaces.push(workspace);
        proof {
            assert(self@.workspaces =~= before.workspaces.push(workspace@));
            if is_sound(before) && !ids_of(before).contains(workspace@.id) {
                lemma_added_is_sound(before, workspace@);
            }
        }
    }

    /// Deletes the workspace `workspace_id`. Where it was the active one,
    /// the first of the remaining workspaces becomes active.
    pub fn delete_workspace(&mut self, workspace_id: String) -> (result: Result<
        (),
        WorkspaceError,
    >)
        ensures
            match result {
                Ok(_) => deleted(old(self)@, workspace_id@) == Ok::<ConfigView, WorkspaceError>(
                    final(self)@,
                ),
                Err(e) => deleted(old(self)@, workspace_id@) == Err::<ConfigView, WorkspaceError>(
                    e,
                ) && *final(self) == *old(self),
            },
            is_sound(old(self)@) ==> is_sound(final(self)@),
    {
        if self.workspaces.len() <= 1 {
            return Err(WorkspaceError::LastWorkspace);
        }
        match self.find(&workspace_id) {
            None => Err(WorkspaceError::NotFound),
            Some(at) => {
                let ghost before = self@;
                self.workspaces.remove(at);
                assert(self@.workspaces =~= before.workspaces.remove(at as int));
                if self.active_workspace_id == workspace_id {
                    self.active_workspace_id = self.workspaces[0].id.clone();
                }
                proof {
                    if is_sound(before) {
                        lemma_deleted_is_sound(before, workspace_id@);
                    }
                }
                Ok(())
            },
        }
    }

    /// Shows the workspace `workspace_id` under another name and returns
    /// it as it then is.
    pub fn rename_workspace(&mut self, workspace_id: String, new_name: String) -> (result: Result<
        Workspace,
        WorkspaceError,
    >)
        ensures
            match result {
                Ok(workspace) => renamed(old(self)@, workspace_id@, new_name@) == Ok::<
                    ConfigView,
                    WorkspaceError,
                >(final(self)@) && workspace@ == with_name(
                    old(self)@,
                    place_of(old(self)@, workspace_id@).unwrap(),
                    new_name@,
                ),
                Err(e) => renamed(old(self)@, workspace_id@, new_name@) == Err::<
                    ConfigView,
                    WorkspaceError,
                >(e) && *final(self) == *old(self),
            },
            is_sound(old(self)@) ==> is_sound(final(self)@),
    {
        match self.find(&workspace_id) {
            None => Err(WorkspaceError::NotFound),
            Some(at) => {
                let ghost before = self@;
                let previous = self.workspaces.remove(at);
                let updated = Workspace {
                    id: previous.id,
                    name: new_name,
                    shortcut: previous.shortcut,
                };
                let copy = copy_workspace(&updated);
                self.workspaces.insert(at, updated);
                proof {
                    assert(self@.workspaces =~= before.workspaces.update(
                        at as int,
                        with_name(before, at as int, new_name@),
                    ));
                    if is_sound(before) {
                        lemma_renamed_is_sound(before, workspace_id@, new_name@);
                    }
                }
                Ok(copy)
            },
        }
    }
}

/// Adding a workspace whose identifier is new keeps a sound configuration
/// sound.
pub proof fn lemma_added_is_sound(config: ConfigView, workspace: WorkspaceView)
    requires
        is_sound(config),
        !ids_of(config).contains(workspace.id),
    ensures
        is_sound(added(config, workspace)),
{
    let after = added(config, workspace);
    assert forall|i: int, j: int| 0 <= i < j < after.workspaces.len() implies (
    #[trigger] after.workspaces[i]).id != (#[trigger] after.workspaces[j]).id by {
        if j == config.workspaces.len() {
            assert(ids_of(config)[i] == config.workspaces[i].id);
        }
    }
    let at = choose|at: int| 0 <= at < ids_of(config).len() && ids_of(config)[at] == config.active;
    assert(ids_of(after)[at] == config.active);
}

/// Deleting a workspace keeps a sound configuration sound: a workspace
/// remains, and the active identifier is that of a workspace that remains.
pub proof fn lemma_deleted_is_sound(config: ConfigView, id: Seq<char>)
    requires
        is_sound(config),
        deleted(config, id) is Ok,
    ensures
        is_sound(deleted(config, id).unwrap()),
{
    let after = deleted(config, id).unwrap();
    let at = place_of(config, id).unwrap();
    ids_of(config).index_of_first_ensures(id);
    assert(config.workspaces[at].id == id);
    if config.active == id {
        assert(ids_of(after)[0] == after.active);
    } else {
        let was = choose|k: int|
            0 <= k < ids_of(config).len() && ids_of(config)[k] == config.active;
        if was < at {
            assert(ids_of(after)[was] == config.active);
        } else {
            assert(ids_of(after)[was - 1] == config.active);
        }
    }
}

/// Renaming a workspace keeps a sound configuration sound.
pub proof fn lemma_renamed_is_sound(config: ConfigView, id: Seq<char>, name: Seq<char>)
    requires
        is_sound(config),
        renamed(config, id, name) is Ok,
    ensures
        is_sound(renamed(config, id, name).unwrap()),
{
    let after = renamed(config, id, name).unwrap();
    ids_of(config).index_of_first_ensures(id);
    let was = choose|k: int| 0 <= k < ids_of(config).len() && ids_of(config)[k] == config.active;
    assert(ids_of(after)[was] == config.active);
}

/// Of two workspaces, deleting the active one makes the other one active
/// and leaves it as the only workspace.
pub proof fn lemma_deleting_active_of_two(config: ConfigView, at: int)
    requires
        is_sound(config),
        config.workspaces.len() == 2,
        0 <= at < 2,
        config.workspaces[at].id == config.active,
    ensures
        deleted(config, config.active) is Ok,
        deleted(config, config.active).unwrap().workspaces == seq![config.workspaces[1 - at]],
        deleted(config, config.active).unwrap().active == config.workspaces[1 - at].id,
{
    let ids = ids_of(config);
    assert(ids[at] == config.active);
    assert(ids[1 - at] == config.workspaces[1 - at].id);
    assert forall|j: int| 0 <= j < at implies ids[j] != config.active by {
        assert(config.workspaces[j].id != config.workspaces[at].id);
    }
    lemma_first_index(ids, config.active, at);
    assert(config.workspaces.remove(at) =~= seq![config.workspaces[1 - at]]);
}

impl WorkspaceError {
    /// The words in which the refusal is reported.
    pub open spec fn text(self) -> Seq<char> {
        match self {
            WorkspaceError::NotFound => "Workspace not found"@,
            WorkspaceError::AlreadyExists => "Workspace already exists"@,
            WorkspaceError::InvalidName => "Invalid workspace name"@,
            WorkspaceError::LastWorkspace => "Cannot delete the last workspace"@,
        }
    }

    /// Reports the refusal in words.
    pub fn message(&self) -> (words: String)
        ensures
            words@ == self.text(),
    {
        match self {
            WorkspaceError::NotFound => "Workspace not found".to_owned(),
            WorkspaceError::AlreadyExists => "Workspace already exists".to_owned(),
            WorkspaceError::InvalidName => "Invalid workspace name".to_owned(),
            WorkspaceError::LastWorkspace => "Cannot delete the last workspace".to_owned(),
        }
    }
}

} // verus!

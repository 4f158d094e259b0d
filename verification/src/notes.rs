//! What happens to a note's file name when the note is created, saved or
//! renamed by hand, and which files a first run takes in.

use crate::codec::{
    filename_of, format_filename, is_note_name, note_stem_chars, note_suffix, parse_file_number,
    stem_of, untitled,
};
use crate::migration::{content_slug, slug_for_title};
use crate::numbering::{
    entry_key, file_stem, highest_key, highest_number, lemma_next_name_is_free,
    lemma_written_entry, stem_of_entry,
};
use crate::text::{chars_of, contains_name, names_of};
use crate::title::parse_title;
use vstd::prelude::*;

verus! {

/// The name of a new note in a directory whose entries are `names`: the
/// next unused number and the slug `untitled`. There is none where the
/// highest number is already the largest that fits.
pub open spec fn fresh_name(names: Seq<Seq<char>>) -> Option<Seq<char>> {
    if highest_key(names) < u64::MAX {
        Some(filename_of((highest_key(names) + 1) as u64, untitled()))
    } else {
        None
    }
}

/// Why a note cannot be created.
#[derive(Clone, Copy, Debug, PartialEq, Eq)]
pub enum CreateError {
    /// The highest number in use is the largest that fits in 64 bits.
    NumbersExhausted,
}

/// Names the file of a note that is about to be created.
pub fn new_note_name(names: &Vec<String>) -> (result: Result<String, CreateError>)
    ensures
        match result {
            Ok(fresh) => fresh_name(names_of(names@)) == Some(fresh@),
            Err(CreateError::NumbersExhausted) => fresh_name(names_of(names@)) is None,
        },
{
    let top = highest_number(names);
    if top == u64::MAX {
        return Err(CreateError::NumbersExhausted);
    }
    proof {
        reveal_strlit("untitled");
        assert("untitled"@ =~= untitled());
    }
    Ok(format_filename(top + 1, "untitled"))
}

/// The name that the note `name` should have once `content` is saved in
/// it: its number with the slug of the new title. There is none where the
/// note carries no number, and none where it has that name already.
pub open spec fn save_target(name: Seq<char>, content: Seq<char>) -> Option<Seq<char>> {
    match entry_key(name) {
        None => None,
        Some(number) => if stem_of(number, content_slug(content)) == file_stem(name) {
            None
        } else {
            Some(filename_of(number, content_slug(content)))
        },
    }
}

/// What saving `content` into the note `name` does to its name, in a
/// directory whose entries are `taken`: the note is renamed to its target
/// unless an entry of that name exists, in which case it keeps its name.
pub open spec fn rename_after_save(
    name: Seq<char>,
    content: Seq<char>,
    taken: Seq<Seq<char>>,
) -> Option<Seq<char>> {
    match save_target(name, content) {
        None => None,
        Some(target) => if taken.contains(target) {
            None
        } else {
            Some(target)
        },
    }
}

/// Decides whether a note is renamed after its content has been saved,
/// and to what. `None` leaves the note under its name.
pub fn rename_on_save(name: &str, content: &str, taken: &Vec<String>) -> (target: Option<String>)
    ensures
        match target {
            Some(to) => rename_after_save(name@, content@, names_of(taken@)) == Some(to@),
            None => rename_after_save(name@, content@, names_of(taken@)) is None,
        },
        target matches Some(to) ==> entry_key(to@) == entry_key(name@) && !names_of(
            taken@,
        ).contains(to@),
{
    let stem = stem_of_entry(name);
    match parse_file_number(stem.as_str()) {
        None => None,
        Some(number) => {
            let title = parse_title(content);
            let slug = slug_for_title(title.as_str());
            let to = format_filename(number, slug.as_str());
            proof {
                lemma_written_entry(number, slug@);
            }
            let mut current = stem.clone();
            current.push('.');
            current.push('m');
            current.push('d');
            proof {
                let written = stem_of(number, slug@);
                assert(to@ == written + note_suffix());
                assert(current@ == file_stem(name@) + note_suffix());
                assert(to@.take(written.len() as int) == written);
                assert(current@.take(file_stem(name@).len() as int) == file_stem(name@));
            }
            if to == current {
                None
            } else if contains_name(taken, &to) {
                None
            } else {
                Some(to)
            }
        },
    }
}

/// Why a note cannot be renamed by hand.
#[derive(Clone, Copy, Debug, PartialEq, Eq)]
pub enum RenameError {
    /// An entry of the wanted name exists already.
    AlreadyExists,
}

/// Names the file of a note that is renamed by hand to the stem
/// `new_name`: the stem with the note extension, unless an entry of that
/// name exists in the directory.
pub fn rename_note(new_name: &str, taken: &Vec<String>) -> (result: Result<String, RenameError>)
    ensures
        match result {
            Ok(name) => name@ == new_name@ + note_suffix() && !names_of(taken@).contains(name@),
            Err(RenameError::AlreadyExists) => names_of(taken@).contains(
                new_name@ + note_suffix(),
            ),
        },
{
    let mut name = new_name.to_owned();
    name.push('.');
    name.push('m');
    name.push('d');
    assert(name@ == new_name@ + note_suffix());
    if contains_name(taken, &name) {
        Err(RenameError::AlreadyExists)
    } else {
        Ok(name)
    }
}

/// The notes among `names`, in the order of the listing.
pub open spec fn notes_among(names: Seq<Seq<char>>) -> Seq<Seq<char>> {
    names.filter(|name: Seq<char>| is_note_name(name))
}

/// Picks the files that a first run moves into the first workspace: the
/// notes that lie in the root of the store, in the order of the listing.
pub fn notes_to_adopt(names: &Vec<String>) -> (notes: Vec<String>)
    ensures
        names_of(notes@) == notes_among(names_of(names@)),
{
    let ghost views = names_of(names@);
    let mut notes: Vec<String> = Vec::new();
    let mut i: usize = 0;
    while i < names.len()
        invariant
            i <= names.len(),
            views == names_of(names@),
            names_of(notes@) == notes_among(views.take(i as int)),
        decreases names.len() - i,
    {
        let chars = chars_of(names[i].as_str());
        let ghost before = names_of(notes@);
        proof {
            reveal(Seq::filter);
            assert(views.take(i + 1).drop_last() == views.take(i as int));
            assert(views.take(i + 1).last() == views[i as int]);
        }
        if note_stem_chars(&chars).is_some() {
            notes.push(names[i].clone());
            assert(names_of(notes@) =~= before.push(views[i as int]));
        }
        i += 1;
    }
    assert(views.take(i as int) == views);
    notes
}

impl RenameError {
    /// The words in which the refusal is reported.
    pub open spec fn text(self) -> Seq<char> {
        match self {
            RenameError::AlreadyExists => "A note with this name already exists"@,
        }
    }

    /// Reports the refusal in words.
    pub fn message(&self) -> (words: String)
        ensures
            words@ == self.text(),
    {
        match self {
            RenameError::AlreadyExists => "A note with this name already exists".to_owned(),
        }
    }
}

impl CreateError {
    /// The words in which the failure is reported.
    pub open spec fn text(self) -> Seq<char> {
        match self {
            CreateError::NumbersExhausted => "Note number out of range"@,
        }
    }

    /// Reports the failure in words.
    pub fn message(&self) -> (words: String)
        ensures
            words@ == self.text(),
    {
        match self {
            CreateError::NumbersExhausted => "Note number out of range".to_owned(),
        }
    }
}

/// The name of a new note is the name of no entry: creating the note
/// replaces nothing.
pub proof fn lemma_new_note_replaces_nothing(names: Seq<Seq<char>>)
    requires
        fresh_name(names) is Some,
    ensures
        !names.contains(fresh_name(names).unwrap()),
{
    lemma_next_name_is_free(names, untitled());
}

} // verus!

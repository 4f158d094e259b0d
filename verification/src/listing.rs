//! The note listing: the notes of a directory as they are shown, numbered
//! notes first and by falling key, the others after them and by falling
//! modification time.

use crate::codec::{is_note_name, note_key, note_number, note_stem, note_stem_of};
use crate::sorting::{lemma_one_order, lists_in_order, ranks_before, sort_order, Rank};
use crate::title::{parse_title, title_of};
use vstd::prelude::*;

verus! {

/// A note as the listing shows it.
#[derive(Clone, Debug, PartialEq, Eq)]
pub struct NoteEntry {
    /// The file name without its extension.
    pub name: String,
    /// Where the file lies.
    pub path: String,
    /// When the file was last modified, in seconds since the epoch.
    pub modified: u64,
    /// The title that the content gives.
    pub title: String,
}

/// A listed note as character sequences.
pub struct NoteEntryView {
    pub name: Seq<char>,
    pub path: Seq<char>,
    pub modified: u64,
    pub title: Seq<char>,
}

impl View for NoteEntry {
    type V = NoteEntryView;

    open spec fn view(&self) -> NoteEntryView {
        NoteEntryView {
            name: self.name@,
            path: self.path@,
            modified: self.modified,
            title: self.title@,
        }
    }
}

/// A directory entry as it was found: its name, where it lies, when it was
/// last modified, and the beginning of its content.
#[derive(Clone, Debug, PartialEq, Eq)]
pub struct FoundFile {
    pub file_name: String,
    pub path: String,
    pub modified: u64,
    pub head: String,
}

/// The listed note that a found note file gives: its stem as name, and the
/// title that its content begins with.
pub open spec fn entry_for(file: FoundFile) -> NoteEntryView {
    NoteEntryView {
        name: note_stem(file.file_name@),
        path: file.path@,
        modified: file.modified,
        title: title_of(file.head@),
    }
}

/// The weight by which a note is compared with notes of its kind: its key
/// where it carries one, and the time of its last change otherwise.
pub open spec fn listing_weight(file: FoundFile) -> u64 {
    match note_key(file.file_name@) {
        Some(key) => key,
        None => file.modified,
    }
}

/// True when the note at `i` is listed before the one at `j`: a numbered
/// note before one without a number, then the higher key among numbered
/// notes and the later change among the others, and where these are equal
/// the note that was found first.
pub open spec fn listed_before(files: Seq<FoundFile>, i: int, j: int) -> bool {
    let keyed_i = note_key(files[i].file_name@) is Some;
    let keyed_j = note_key(files[j].file_name@) is Some;
    if keyed_i != keyed_j {
        keyed_i
    } else if listing_weight(files[i]) != listing_weight(files[j]) {
        listing_weight(files[i]) > listing_weight(files[j])
    } else {
        i < j
    }
}

/// True when `order` holds the positions of exactly the notes among
/// `files`, in the order in which they are listed.
pub open spec fn is_listing_order(files: Seq<FoundFile>, order: Seq<int>) -> bool {
    &&& forall|k: int|
        0 <= k < order.len() ==> 0 <= #[trigger] order[k] < files.len() && is_note_name(
            files[order[k]].file_name@,
        )
    &&& forall|i: int|
        0 <= i < files.len() && is_note_name((#[trigger] files[i]).file_name@) ==> order.contains(
            i,
        )
    &&& forall|a: int, b: int|
        0 <= a < b < order.len() ==> listed_before(files, #[trigger] order[a], #[trigger] order[b])
}

/// The listed notes that the files at the positions `order` give.
pub open spec fn entries_in(files: Seq<FoundFile>, order: Seq<int>) -> Seq<NoteEntryView> {
    Seq::new(order.len(), |k: int| entry_for(files[order[k]]))
}

/// The entries of a list as character sequences.
pub open spec fn entries_of(entries: Seq<NoteEntry>) -> Seq<NoteEntryView> {
    entries.map_values(|entry: NoteEntry| entry@)
}

/// Lists the notes among the files found in a directory, in the order in
/// which they are shown. Files that are no notes are left out.
pub fn list_notes(files: &Vec<FoundFile>) -> (entries: Vec<NoteEntry>)
    ensures
        exists|order: Seq<int>|
            is_listing_order(files@, order) && entries_of(entries@) == entries_in(files@, order),
{
    let mut found: Vec<usize> = Vec::new();
    let mut ranks: Vec<Rank> = Vec::new();
    let mut i: usize = 0;
    while i < files.len()
        invariant
            i <= files.len(),
            found.len() == ranks.len(),
            forall|m: int|
                0 <= m < found.len() ==> (#[trigger] found[m]) < i && is_note_name(
                    files[found[m] as int].file_name@,
                ),
            forall|m: int|
                0 <= m < ranks.len() ==> (#[trigger] ranks[m]).keyed == (note_key(
                    files[found[m] as int].file_name@,
                ) is Some) && ranks[m].weight == listing_weight(files[found[m] as int]),
            forall|m: int, l: int|
                0 <= m < l < found.len() ==> (#[trigger] found[m]) < (#[trigger] found[l]),
            forall|j: int|
                0 <= j < i && is_note_name((#[trigger] files[j]).file_name@) ==> found@.contains(
                    j as usize,
                ),
        decreases files.len() - i,
    {
        let ghost before = found@;
        let file: &FoundFile = &files[i];
        if note_stem_of(file.file_name.as_str()).is_some() {
            let rank = match note_number(file.file_name.as_str()) {
                Some(key) => Rank { keyed: true, weight: key },
                None => Rank { keyed: false, weight: file.modified },
            };
            found.push(i);
            ranks.push(rank);
            assert(found@[before.len() as int] == i);
        }
        proof {
            assert forall|j: int|
                0 <= j < i + 1 && is_note_name(
                    (#[trigger] files[j]).file_name@,
                ) implies found@.contains(j as usize) by {
                if j < i {
                    assert(before.contains(j as usize));
                    let m0 = choose|m: int| 0 <= m < before.len() && before[m] == j as usize;
                    assert(found@[m0] == j as usize);
                } else {
                    assert(found@[before.len() as int] == j as usize);
                }
            }
        }
        i += 1;
    }
    let order = sort_order(&ranks);
    let ghost positions = Seq::new(order.len() as nat, |k: int| found[order[k] as int] as int);
    let mut entries: Vec<NoteEntry> = Vec::new();
    let mut k: usize = 0;
    while k < order.len()
        invariant
            k <= order.len(),
            order.len() == found.len(),
            forall|m: int| 0 <= m < order.len() ==> (#[trigger] order[m]) < found.len(),
            forall|m: int|
                0 <= m < found.len() ==> (#[trigger] found[m]) < files.len() && is_note_name(
                    files[found[m] as int].file_name@,
                ),
            entries.len() == k,
            forall|m: int|
                0 <= m < k ==> (#[trigger] entries[m])@ == entry_for(
                    files[found[order[m] as int] as int],
                ),
        decreases order.len() - k,
    {
        let file: &FoundFile = &files[found[order[k]]];
        let name = match note_stem_of(file.file_name.as_str()) {
            Some(stem) => stem,
            None => file.file_name.clone(),
        };
        let title = parse_title(file.head.as_str());
        entries.push(NoteEntry { name, path: file.path.clone(), modified: file.modified, title });
        k += 1;
    }
    proof {
        assert forall|j: int|
            0 <= j < files.len() && is_note_name(
                (#[trigger] files[j]).file_name@,
            ) implies positions.contains(j) by {
            assert(found@.contains(j as usize));
            let m0 = choose|m: int| 0 <= m < found.len() && found[m] == j as usize;
            assert(order@.contains(m0 as usize));
            let k0 = choose|k: int| 0 <= k < order.len() && order[k] == m0 as usize;
            assert(positions[k0] == j);
        }
        assert forall|a: int, b: int| 0 <= a < b < positions.len() implies listed_before(
            files@,
            #[trigger] positions[a],
            #[trigger] positions[b],
        ) by {
            assert(ranks_before(ranks@, order[a] as int, order[b] as int));
        }
        assert(is_listing_order(files@, positions));
        assert(entries_of(entries@) =~= entries_in(files@, positions));
    }
    entries
}

/// The files of a directory have one listing order only.
pub proof fn lemma_one_listing_order(files: Seq<FoundFile>, first: Seq<int>, second: Seq<int>)
    requires
        is_listing_order(files, first),
        is_listing_order(files, second),
    ensures
        first == second,
{
    let members = Set::new(|i: int| 0 <= i < files.len() && is_note_name(files[i].file_name@));
    let before = |i: int, j: int| listed_before(files, i, j);
    assert(lists_in_order(first, members, before));
    assert(lists_in_order(second, members, before));
    lemma_one_order(first, second, members, before);
}

} // verus!

//! The order engine: where a note goes when it is moved, and which renames
//! bring the directory there.
//!
//! Notes are shown with the highest key on top. Moving a note gives it a key
//! between its new neighbours where there is room, and renumbers the whole
//! directory above its highest key where there is none.

use crate::codec::{filename_of, lemma_written_name, note_key, note_slug};
use crate::codec::{format_filename, kept_slug, note_number};
use crate::seqs::{lemma_absent, lemma_first_index};
use crate::sorting::{lemma_one_order, lists_in_order, ranks_before, sort_order, Rank};
use crate::text::{names_at, names_of};
use vstd::prelude::*;

verus! {

/// True when the numbered note at `i` is shown before the one at `j`: the
/// higher key first, and of two equal keys the one listed first.
pub open spec fn shown_before(names: Seq<Seq<char>>, i: int, j: int) -> bool {
    let ki = note_key(names[i]).unwrap();
    let kj = note_key(names[j]).unwrap();
    ki > kj || (ki == kj && i < j)
}

/// True when `order` holds the positions of exactly the numbered notes among
/// `names`, in the order in which they are shown.
pub open spec fn is_display_order(names: Seq<Seq<char>>, order: Seq<int>) -> bool {
    &&& forall|k: int|
        0 <= k < order.len() ==> 0 <= #[trigger] order[k] < names.len() && note_key(
            names[order[k]],
        ) is Some
    &&& forall|i: int|
        0 <= i < names.len() && note_key(#[trigger] names[i]) is Some ==> order.contains(i)
    &&& forall|a: int, b: int|
        0 <= a < b < order.len() ==> shown_before(names, #[trigger] order[a], #[trigger] order[b])
}

/// A numbered note as it is shown: its position in the directory listing
/// and its ordering key.
#[derive(Clone, Copy, Debug, PartialEq, Eq)]
pub struct ShownNote {
    pub index: usize,
    pub key: u64,
}

/// The positions held by a list of shown notes.
pub open spec fn positions_of(shown: Seq<ShownNote>) -> Seq<int> {
    Seq::new(shown.len(), |k: int| shown[k].index as int)
}

/// True when `shown` lists the numbered notes among `names` in display
/// order, each with its key.
pub open spec fn shows(names: Seq<Seq<char>>, shown: Seq<ShownNote>) -> bool {
    &&& is_display_order(names, positions_of(shown))
    &&& forall|k: int|
        0 <= k < shown.len() ==> note_key(names[(#[trigger] shown[k]).index as int]) == Some(
            shown[k].key,
        )
}

/// The numbered notes of a directory in display order: highest key first,
/// notes with equal keys in the order of the listing. Files that are no
/// notes, and notes without a number, are left out.
pub fn display_order(names: &Vec<String>) -> (shown: Vec<ShownNote>)
    ensures
        shows(names_of(names@), shown@),
{
    let ghost views = names_of(names@);
    let mut found: Vec<ShownNote> = Vec::new();
    let mut ranks: Vec<Rank> = Vec::new();
    let mut i: usize = 0;
    while i < names.len()
        invariant
            i <= names.len(),
            views == names_of(names@),
            found.len() == ranks.len(),
            forall|m: int|
                0 <= m < found.len() ==> (#[trigger] found[m]).index < i && note_key(
                    views[found[m].index as int],
                ) == Some(found[m].key),
            forall|m: int|
                0 <= m < ranks.len() ==> (#[trigger] ranks[m]).keyed && ranks[m].weight
                    == found[m].key,
            forall|m: int, l: int|
                0 <= m < l < found.len() ==> (#[trigger] found[m]).index < (
                #[trigger] found[l]).index,
            forall|j: int|
                0 <= j < i && note_key(#[trigger] views[j]) is Some ==> exists|m: int|
                    0 <= m < found.len() && (#[trigger] found[m]).index == j,
        decreases names.len() - i,
    {
        let ghost before = found@;
        match note_number(names[i].as_str()) {
            Some(key) => {
                found.push(ShownNote { index: i, key });
                ranks.push(Rank { keyed: true, weight: key });
                assert(found@[before.len() as int].index == i);
            },
            None => {},
        }
        proof {
            assert forall|j: int| 0 <= j < i + 1 && note_key(#[trigger] views[j]) is Some implies exists|
                m: int,
            |
                0 <= m < found.len() && (#[trigger] found[m]).index == j by {
                if j < i {
                    let m0 = choose|m: int| 0 <= m < before.len() && (#[trigger] before[m]).index == j;
                    assert(found[m0].index == j);
                } else {
                    assert(found[before.len() as int].index == j);
                }
            }
        }
        i += 1;
    }
    let order = sort_order(&ranks);
    let mut shown: Vec<ShownNote> = Vec::new();
    let mut k: usize = 0;
    while k < order.len()
        invariant
            k <= order.len(),
            order.len() == found.len(),
            forall|m: int| 0 <= m < order.len() ==> (#[trigger] order[m]) < found.len(),
            shown.len() == k,
            forall|m: int| 0 <= m < k ==> (#[trigger] shown[m]) == found[order[m] as int],
        decreases order.len() - k,
    {
        shown.push(found[order[k]]);
        k += 1;
    }
    proof {
        let positions = positions_of(shown@);
        assert forall|m: int| 0 <= m < positions.len() implies 0 <= #[trigger] positions[m]
            < views.len() && note_key(views[positions[m]]) is Some by {
            assert(shown[m] == found[order[m] as int]);
        }
        assert forall|j: int| 0 <= j < views.len() && note_key(#[trigger] views[j]) is Some implies positions.contains(
            j,
        ) by {
            let m0 = choose|m: int| 0 <= m < found.len() && (#[trigger] found[m]).index == j;
            assert(order@.contains(m0 as usize));
            let k0 = choose|k: int| 0 <= k < order.len() && order[k] == m0 as usize;
            assert(shown[k0] == found[order[k0] as int]);
            assert(positions[k0] == j);
        }
        assert forall|a: int, b: int| 0 <= a < b < positions.len() implies shown_before(
            views,
            #[trigger] positions[a],
            #[trigger] positions[b],
        ) by {
            assert(shown[a] == found[order[a] as int]);
            assert(shown[b] == found[order[b] as int]);
            assert(ranks_before(ranks@, order[a] as int, order[b] as int));
        }
        assert forall|m: int| 0 <= m < shown.len() implies note_key(
            views[(#[trigger] shown[m]).index as int],
        ) == Some(shown[m].key) by {
            assert(shown[m] == found[order[m] as int]);
        }
    }
    shown
}

/// One rename of a file within its directory.
#[derive(Clone, Debug, PartialEq, Eq)]
pub struct Rename {
    pub from: String,
    pub to: String,
}

/// A rename as a pair of character sequences.
pub struct RenameView {
    pub from: Seq<char>,
    pub to: Seq<char>,
}

impl View for Rename {
    type V = RenameView;

    open spec fn view(&self) -> RenameView {
        RenameView { from: self.from@, to: self.to@ }
    }
}

/// What a move asks of the directory: the renames to perform, in order, and
/// the name under which the moved note is found afterwards.
///
/// The renames are made one by one, and the pass stops at the first that
/// fails. No rename leads to a name or a key that is in use, so a pass that
/// stops midway has replaced no file and has put no two notes onto one key;
/// the notes that were not reached keep their names.
#[derive(Clone, Debug, PartialEq, Eq)]
pub struct ReorderPlan {
    pub renames: Vec<Rename>,
    pub new_name: String,
}

/// A plan as character sequences.
pub struct PlanView {
    pub renames: Seq<RenameView>,
    pub new_name: Seq<char>,
}

impl View for ReorderPlan {
    type V = PlanView;

    open spec fn view(&self) -> PlanView {
        PlanView { renames: self.renames@.map_values(|r: Rename| r@), new_name: self.new_name@ }
    }
}

/// Why a move cannot be planned.
#[derive(Clone, Copy, Debug, PartialEq, Eq)]
pub enum ReorderError {
    /// The note to move is not among the numbered notes of the directory.
    NoteNotFound,
    /// The key that the move calls for does not fit in 64 bits.
    KeyOverflow,
}

/// The slot that a requested index stands for among `count` notes: the
/// index itself, or the last slot where the index lies beyond it.
pub open spec fn slot_of(count: int, new_index: int) -> int {
    if new_index < count - 1 {
        new_index
    } else {
        count - 1
    }
}

/// The key shown just above `slot` among the notes that stay in place;
/// none at the top, where nothing bounds the new key from above.
pub open spec fn key_above(rest: Seq<Seq<char>>, slot: int) -> Option<u64> {
    if slot > 0 {
        note_key(rest[slot - 1])
    } else {
        None
    }
}

/// The key shown just below `slot` among the notes that stay in place;
/// zero at the bottom, where nothing is shown below.
pub open spec fn key_below(rest: Seq<Seq<char>>, slot: int) -> u64 {
    if slot < rest.len() {
        note_key(rest[slot]).unwrap()
    } else {
        0
    }
}

/// True when a key fits strictly between the neighbours of `slot`.
pub open spec fn has_gap(rest: Seq<Seq<char>>, slot: int) -> bool {
    match key_above(rest, slot) {
        None => true,
        Some(above) => above > key_below(rest, slot) + 1,
    }
}

/// The plan that gives `target` the key `key` and leaves every other file
/// alone.
pub open spec fn gap_plan(target: Seq<char>, key: u64) -> PlanView {
    let new_name = filename_of(key, note_slug(target));
    PlanView {
        renames: if new_name == target {
            Seq::empty()
        } else {
            seq![RenameView { from: target, to: new_name }]
        },
        new_name,
    }
}

/// The key that a full renumbering of `count` notes above `top` gives to
/// the note at `pos` of the new order: `top + count` at the first position,
/// down to `top + 1` at the last.
pub open spec fn dense_key(top: u64, count: int, pos: int) -> int {
    top + count - pos
}

/// The name that a full renumbering gives to the note at `pos` of the new
/// order `moved`: its new key, and the slug it had.
pub open spec fn dense_name(moved: Seq<Seq<char>>, top: u64, pos: int) -> Seq<char> {
    filename_of(dense_key(top, moved.len() as int, pos) as u64, note_slug(moved[pos]))
}

/// The position that is renamed at turn `k` of a full renumbering: the notes
/// that stay in place come first, from the top down, and the moved note at
/// `slot` comes last.
pub open spec fn dense_turn(count: int, slot: int, k: int) -> int {
    if k < slot {
        k
    } else if k < count - 1 {
        k + 1
    } else {
        slot
    }
}

/// The renames of a full renumbering, in the order in which they are made.
pub open spec fn dense_renames(moved: Seq<Seq<char>>, top: u64, slot: int) -> Seq<RenameView> {
    Seq::new(
        moved.len(),
        |k: int|
            {
                let pos = dense_turn(moved.len() as int, slot, k);
                RenameView { from: moved[pos], to: dense_name(moved, top, pos) }
            },
    )
}

/// The plan that renumbers every note of the new order `moved` above `top`.
pub open spec fn dense_plan(moved: Seq<Seq<char>>, top: u64, slot: int) -> PlanView {
    PlanView { renames: dense_renames(moved, top, slot), new_name: dense_name(moved, top, slot) }
}

/// What moving `target` to `new_index` comes to, given the names of the
/// numbered notes as they are shown.
///
/// A note that is not shown cannot be moved. A note that is asked to go
/// where it is, or that is alone, stays as it is. Otherwise the note leaves
/// its place and enters at the slot asked for. Where a key fits between its
/// new neighbours it gets the key just above the lower one and nothing else
/// changes; where none fits, every note gets a fresh key above the highest
/// key in use.
pub open spec fn reorder_outcome(shown: Seq<Seq<char>>, target: Seq<char>, new_index: int) -> Result<
    PlanView,
    ReorderError,
> {
    match shown.index_of_first(target) {
        None => Err(ReorderError::NoteNotFound),
        Some(source) => {
            let count = shown.len() as int;
            if new_index == source || count <= 1 {
                Ok(PlanView { renames: Seq::empty(), new_name: target })
            } else {
                let slot = slot_of(count, new_index);
                let rest = shown.remove(source);
                if has_gap(rest, slot) {
                    let below = key_below(rest, slot);
                    if below < u64::MAX {
                        Ok(gap_plan(target, (below + 1) as u64))
                    } else {
                        Err(ReorderError::KeyOverflow)
                    }
                } else {
                    let top = note_key(shown[0]).unwrap();
                    if top + count <= u64::MAX {
                        Ok(dense_plan(rest.insert(slot, target), top, slot))
                    } else {
                        Err(ReorderError::KeyOverflow)
                    }
                }
            }
        },
    }
}

/// A planning result as character sequences.
pub open spec fn outcome_of(result: Result<ReorderPlan, ReorderError>) -> Result<
    PlanView,
    ReorderError,
> {
    match result {
        Ok(plan) => Ok(plan@),
        Err(e) => Err(e),
    }
}

/// The place of `target` among the shown notes, if it is shown.
fn find_shown(names: &Vec<String>, shown: &Vec<ShownNote>, target: &String) -> (found: Option<
    usize,
>)
    requires
        shows(names_of(names@), shown@),
    ensures
        match found {
            Some(k) => k < shown.len() && names_at(
                names_of(names@),
                positions_of(shown@),
            ).index_of_first(target@) == Some(k as int),
            None => names_at(names_of(names@), positions_of(shown@)).index_of_first(target@)
                is None,
        },
{
    let ghost listed = names_at(names_of(names@), positions_of(shown@));
    let mut k: usize = 0;
    while k < shown.len()
        invariant
            k <= shown.len(),
            shows(names_of(names@), shown@),
            listed == names_at(names_of(names@), positions_of(shown@)),
            forall|j: int| 0 <= j < k ==> listed[j] != target@,
        decreases shown.len() - k,
    {
        assert(0 <= positions_of(shown@)[k as int] < names.len());
        if names[shown[k].index] == *target {
            proof {
                assert(listed[k as int] == target@);
                lemma_first_index(listed, target@, k as int);
            }
            return Some(k);
        }
        assert(listed[k as int] != target@);
        k += 1;
    }
    proof {
        lemma_absent(listed, target@);
    }
    None
}

/// The place among the shown notes of the note that stands at `j` once the
/// note at `source` has left.
pub open spec fn stays_from(source: int, j: int) -> int {
    if j < source {
        j
    } else {
        j + 1
    }
}

/// The place among the shown notes of the note that stands at `pos` once
/// the note at `source` has moved to `slot`.
pub open spec fn moved_from(source: int, slot: int, pos: int) -> int {
    if pos == slot {
        source
    } else if pos < slot {
        stays_from(source, pos)
    } else {
        stays_from(source, pos - 1)
    }
}

/// Taking the item at `source` out and putting it in at `slot` gives the
/// order that `moved_from` describes.
pub proof fn lemma_moved_order<A>(shown: Seq<A>, source: int, slot: int)
    requires
        0 <= source < shown.len(),
        0 <= slot < shown.len(),
    ensures
        shown.remove(source).insert(slot, shown[source]).len() == shown.len(),
        forall|pos: int|
            0 <= pos < shown.len() ==> #[trigger] shown.remove(source).insert(
                slot,
                shown[source],
            )[pos] == shown[moved_from(source, slot, pos)],
        forall|j: int|
            0 <= j < shown.len() - 1 ==> #[trigger] shown.remove(source)[j] == shown[stays_from(
                source,
                j,
            )],
{
}

/// The place among the shown notes of the note at `j` of those that stay.
fn stays_at(source: usize, j: usize) -> (from: usize)
    requires
        j < usize::MAX,
    ensures
        from == stays_from(source as int, j as int),
{
    if j < source {
        j
    } else {
        j + 1
    }
}

/// The place among the shown notes of the note at `pos` of the new order.
fn moved_at(source: usize, slot: usize, pos: usize) -> (from: usize)
    requires
        pos < usize::MAX,
    ensures
        from == moved_from(source as int, slot as int, pos as int),
{
    if pos == slot {
        source
    } else if pos < slot {
        stays_at(source, pos)
    } else {
        stays_at(source, pos - 1)
    }
}

/// Plans the move of `target` onto the free key `key`.
fn plan_gap(target: &String, key: u64) -> (plan: ReorderPlan)
    ensures
        plan@ == gap_plan(target@, key),
{
    let slug = kept_slug(target.as_str());
    let new_name = format_filename(key, slug.as_str());
    let mut renames: Vec<Rename> = Vec::new();
    if new_name != *target {
        renames.push(Rename { from: target.clone(), to: new_name.clone() });
    }
    let plan = ReorderPlan { renames, new_name };
    assert(plan@.renames =~= gap_plan(target@, key).renames);
    plan
}

/// Plans the renumbering of every shown note above `top`, with the note at
/// `source` moved to `slot`.
fn plan_dense(
    names: &Vec<String>,
    shown: &Vec<ShownNote>,
    source: usize,
    slot: usize,
    top: u64,
) -> (plan: ReorderPlan)
    requires
        shows(names_of(names@), shown@),
        source < shown.len(),
        slot < shown.len(),
        top + shown.len() <= u64::MAX,
    ensures
        plan@ == dense_plan(
            names_at(names_of(names@), positions_of(shown@)).remove(source as int).insert(
                slot as int,
                names_at(names_of(names@), positions_of(shown@))[source as int],
            ),
            top,
            slot as int,
        ),
{
    let ghost listed = names_at(names_of(names@), positions_of(shown@));
    let ghost moved = listed.remove(source as int).insert(slot as int, listed[source as int]);
    let ghost wanted = dense_renames(moved, top, slot as int);
    proof {
        lemma_moved_order(listed, source as int, slot as int);
    }
    let count: usize = shown.len();
    let mut renames: Vec<Rename> = Vec::new();
    let mut new_name = String::new();
    let mut k: usize = 0;
    while k < count
        invariant
            k <= count,
            count == shown.len(),
            source < count,
            slot < count,
            top + count <= u64::MAX,
            shows(names_of(names@), shown@),
            listed == names_at(names_of(names@), positions_of(shown@)),
            moved.len() == count,
            forall|pos: int|
                0 <= pos < count ==> #[trigger] moved[pos] == listed[moved_from(
                    source as int,
                    slot as int,
                    pos,
                )],
            wanted == dense_renames(moved, top, slot as int),
            renames.len() == k,
            forall|m: int| 0 <= m < k ==> (#[trigger] renames[m])@ == wanted[m],
            k == count ==> new_name@ == dense_name(moved, top, slot as int),
        decreases count - k,
    {
        let pos: usize = if k < slot {
            k
        } else if k < count - 1 {
            k + 1
        } else {
            slot
        };
        assert(pos == dense_turn(count as int, slot as int, k as int));
        let from_at: usize = moved_at(source, slot, pos);
        assert(0 <= positions_of(shown@)[from_at as int] < names.len());
        let name: &String = &names[shown[from_at].index];
        assert(name@ == moved[pos as int]);
        let slug = kept_slug(name.as_str());
        let key: u64 = top + ((count - pos) as u64);
        let to = format_filename(key, slug.as_str());
        assert(to@ == dense_name(moved, top, pos as int));
        if k == count - 1 {
            new_name = to.clone();
        }
        renames.push(Rename { from: name.clone(), to });
        k += 1;
    }
    let plan = ReorderPlan { renames, new_name };
    assert(plan@.renames =~= wanted);
    plan
}

/// The notes that are shown are the numbered notes of the directory: a
/// name is shown exactly when it is an entry and carries a key.
pub proof fn lemma_shown_notes(names: Seq<Seq<char>>, order: Seq<int>, target: Seq<char>)
    requires
        is_display_order(names, order),
    ensures
        names_at(names, order).index_of_first(target) is Some <==> names.contains(target)
            && note_key(target) is Some,
{
    let shown = names_at(names, order);
    shown.index_of_first_ensures(target);
    if shown.contains(target) {
        let k = choose|k: int| 0 <= k < shown.len() && shown[k] == target;
        assert(names[order[k]] == target);
    }
    if names.contains(target) && note_key(target) is Some {
        let i = choose|i: int| 0 <= i < names.len() && names[i] == target;
        assert(order.contains(i));
        let k = choose|k: int| 0 <= k < order.len() && order[k] == i;
        assert(shown[k] == target);
    }
}

/// Plans the move of the note `target` to the place `new_index` of the
/// display order of the directory whose entries are `names`.
///
/// The plan lists the renames that bring the directory to the new order and
/// gives the moved note's new name; nothing is renamed here.
pub fn reorder_note(names: &Vec<String>, target: &str, new_index: usize) -> (result: Result<
    ReorderPlan,
    ReorderError,
>)
    ensures
        exists|order: Seq<int>|
            is_display_order(names_of(names@), order) && outcome_of(result) == reorder_outcome(
                names_at(names_of(names@), order),
                target@,
                new_index as int,
            ),
        result == Err::<ReorderPlan, ReorderError>(ReorderError::NoteNotFound) <==> !(names_of(
            names@,
        ).contains(target@) && note_key(target@) is Some),
{
    let shown = display_order(names);
    let wanted = target.to_owned();
    let ghost order = positions_of(shown@);
    let ghost listed = names_at(names_of(names@), order);
    let result = match find_shown(names, &shown, &wanted) {
        None => Err(ReorderError::NoteNotFound),
        Some(source) => {
            let count: usize = shown.len();
            if new_index == source || count <= 1 {
                let plan = ReorderPlan { renames: Vec::new(), new_name: wanted };
                assert(plan@.renames =~= Seq::empty());
                Ok(plan)
            } else {
                let slot: usize = if new_index < count - 1 {
                    new_index
                } else {
                    count - 1
                };
                proof {
                    lemma_moved_order(listed, source as int, slot as int);
                    listed.index_of_first_ensures(target@);
                }
                let ghost rest = listed.remove(source as int);
                let above: Option<u64> = if slot > 0 {
                    let at: usize = stays_at(source, slot - 1);
                    assert(rest[slot - 1] == listed[at as int]);
                    Some(shown[at].key)
                } else {
                    None
                };
                let below: u64 = if slot < count - 1 {
                    let at: usize = stays_at(source, slot);
                    assert(rest[slot as int] == listed[at as int]);
                    shown[at].key
                } else {
                    0
                };
                assert(above == key_above(rest, slot as int));
                assert(below == key_below(rest, slot as int));
                let gap: bool = match above {
                    None => true,
                    Some(a) => a > below && a - below > 1,
                };
                if gap {
                    if below < u64::MAX {
                        Ok(plan_gap(&wanted, below + 1))
                    } else {
                        Err(ReorderError::KeyOverflow)
                    }
                } else {
                    let top: u64 = shown[0].key;
                    if top <= u64::MAX - (count as u64) {
                        Ok(plan_dense(names, &shown, source, slot, top))
                    } else {
                        Err(ReorderError::KeyOverflow)
                    }
                }
            }
        },
    };
    assert(is_display_order(names_of(names@), order) && outcome_of(result) == reorder_outcome(
        names_at(names_of(names@), order),
        target@,
        new_index as int,
    ));
    proof {
        lemma_shown_notes(names_of(names@), order, target@);
    }
    result
}

/// The place that `target` holds among the shown notes, where it is shown.
pub open spec fn source_of(shown: Seq<Seq<char>>, target: Seq<char>) -> int {
    shown.index_of_first(target).unwrap()
}

/// True when moving `target` to `new_index` changes its place: it is
/// shown, it is not alone, and it is asked to go elsewhere.
pub open spec fn is_move(shown: Seq<Seq<char>>, target: Seq<char>, new_index: int) -> bool {
    &&& shown.index_of_first(target) is Some
    &&& new_index != source_of(shown, target)
    &&& shown.len() > 1
}

/// True when the move finds room between the neighbours of its slot.
pub open spec fn moves_into_gap(shown: Seq<Seq<char>>, target: Seq<char>, new_index: int) -> bool {
    &&& is_move(shown, target, new_index)
    &&& has_gap(shown.remove(source_of(shown, target)), slot_of(shown.len() as int, new_index))
}

/// True when the move finds no room and calls for a full renumbering.
pub open spec fn moves_densely(shown: Seq<Seq<char>>, target: Seq<char>, new_index: int) -> bool {
    &&& is_move(shown, target, new_index)
    &&& !has_gap(shown.remove(source_of(shown, target)), slot_of(shown.len() as int, new_index))
}

/// Moving a note to the place where it already is renames nothing and
/// leaves the note under its name.
pub proof fn lemma_move_in_place(shown: Seq<Seq<char>>, target: Seq<char>, new_index: int)
    requires
        shown.index_of_first(target) == Some(new_index),
    ensures
        reorder_outcome(shown, target, new_index) == Ok::<PlanView, ReorderError>(
            PlanView { renames: Seq::empty(), new_name: target },
        ),
{
}

/// A move that finds a gap renames at most one file, and that file is the
/// moved note; its new name carries the key just above the lower neighbour
/// and the slug it had.
pub proof fn lemma_gap_touches_moved_note_only(
    shown: Seq<Seq<char>>,
    target: Seq<char>,
    new_index: int,
)
    requires
        moves_into_gap(shown, target, new_index),
        reorder_outcome(shown, target, new_index) is Ok,
    ensures
        ({
            let plan = reorder_outcome(shown, target, new_index).unwrap();
            let below = key_below(
                shown.remove(source_of(shown, target)),
                slot_of(shown.len() as int, new_index),
            );
            &&& plan.renames.len() <= 1
            &&& forall|k: int|
                0 <= k < plan.renames.len() ==> (#[trigger] plan.renames[k]).from == target
                    && plan.renames[k].to == plan.new_name
            &&& plan.renames.len() == 0 ==> plan.new_name == target
            &&& note_key(plan.new_name) == Some((below + 1) as u64)
            &&& plan.new_name == filename_of((below + 1) as u64, note_slug(target))
        }),
{
    let below = key_below(
        shown.remove(source_of(shown, target)),
        slot_of(shown.len() as int, new_index),
    );
    lemma_written_name((below + 1) as u64, note_slug(target));
}

/// A move that finds no gap renames every shown note once, the moved note
/// last, and gives the notes of the new order keys that fall by one from
/// each place to the next and that all lie above the highest key in use
/// before: no new key equals another, and none equals an old one that is
/// no higher than the first shown.
pub proof fn lemma_dense_renumbers_in_order(
    shown: Seq<Seq<char>>,
    target: Seq<char>,
    new_index: int,
)
    requires
        moves_densely(shown, target, new_index),
        reorder_outcome(shown, target, new_index) is Ok,
    ensures
        ({
            let plan = reorder_outcome(shown, target, new_index).unwrap();
            let count = shown.len() as int;
            let source = source_of(shown, target);
            let slot = slot_of(count, new_index);
            let moved = shown.remove(source).insert(slot, target);
            let top = note_key(shown[0]).unwrap();
            &&& moved.len() == count
            &&& moved[slot] == target
            &&& forall|pos: int|
                0 <= pos < count ==> #[trigger] moved[pos] == shown[moved_from(source, slot, pos)]
            &&& plan.renames.len() == count
            &&& forall|k: int|
                0 <= k < count ==> (#[trigger] plan.renames[k]).from == moved[dense_turn(
                    count,
                    slot,
                    k,
                )] && plan.renames[k].to == dense_name(moved, top, dense_turn(count, slot, k))
            &&& plan.renames[count - 1].from == target
            &&& plan.renames[count - 1].to == plan.new_name
            &&& forall|pos: int|
                0 <= pos < count ==> note_key(#[trigger] dense_name(moved, top, pos)) == Some(
                    dense_key(top, count, pos) as u64,
                )
            &&& forall|pos: int|
                0 <= pos < count ==> top < #[trigger] dense_key(top, count, pos) <= u64::MAX
            &&& forall|p: int, q: int|
                0 <= p < q < count ==> #[trigger] dense_key(top, count, p) > #[trigger] dense_key(
                    top,
                    count,
                    q,
                )
        }),
{
    let count = shown.len() as int;
    let source = source_of(shown, target);
    let slot = slot_of(count, new_index);
    let moved = shown.remove(source).insert(slot, target);
    let top = note_key(shown[0]).unwrap();
    shown.index_of_first_ensures(target);
    lemma_moved_order(shown, source, slot);
    assert forall|pos: int| 0 <= pos < count implies note_key(
        #[trigger] dense_name(moved, top, pos),
    ) == Some(dense_key(top, count, pos) as u64) by {
        lemma_written_name(dense_key(top, count, pos) as u64, note_slug(moved[pos]));
    }
}

impl ReorderError {
    /// The words in which the failure is reported.
    pub open spec fn text(self) -> Seq<char> {
        match self {
            ReorderError::NoteNotFound => "Note not found"@,
            ReorderError::KeyOverflow => "Note number out of range"@,
        }
    }

    /// Reports the failure in words.
    pub fn message(&self) -> (words: String)
        ensures
            words@ == self.text(),
    {
        match self {
            ReorderError::NoteNotFound => "Note not found".to_owned(),
            ReorderError::KeyOverflow => "Note number out of range".to_owned(),
        }
    }
}

/// A directory has one display order only.
pub proof fn lemma_one_display_order(names: Seq<Seq<char>>, first: Seq<int>, second: Seq<int>)
    requires
        is_display_order(names, first),
        is_display_order(names, second),
    ensures
        first == second,
{
    let members = Set::new(|i: int| 0 <= i < names.len() && note_key(names[i]) is Some);
    let before = |i: int, j: int| shown_before(names, i, j);
    assert(lists_in_order(first, members, before));
    assert(lists_in_order(second, members, before));
    lemma_one_order(first, second, members, before);
}

} // verus!

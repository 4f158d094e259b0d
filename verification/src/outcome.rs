//! What a directory looks like once the renames of a move have been made:
//! its notes are shown in the order that was asked for.

use crate::codec::{lemma_written_name, note_key, note_slug};
use crate::order::{
    dense_key, dense_name, dense_plan, dense_turn, gap_plan, has_gap, is_display_order, is_move,
    key_below, lemma_moved_order, moved_from, reorder_outcome, shown_before, slot_of, source_of,
    stays_from, PlanView, RenameView,
};
use crate::seqs::{lemma_absent, lemma_first_index};
use crate::text::names_at;
use vstd::prelude::*;

verus! {

/// The name under which the file `name` is found once the renames have
/// been made.
pub open spec fn renamed_to(renames: Seq<RenameView>, name: Seq<char>) -> Seq<char> {
    match renames.map_values(|r: RenameView| r.from).index_of_first(name) {
        Some(k) => renames[k].to,
        None => name,
    }
}

/// The entries of a directory once the renames have been made, each in the
/// place of the entry it was.
pub open spec fn names_after(names: Seq<Seq<char>>, renames: Seq<RenameView>) -> Seq<Seq<char>> {
    Seq::new(names.len(), |i: int| renamed_to(renames, names[i]))
}

/// True when no two entries have the same name, as in any directory.
pub open spec fn has_distinct_names(names: Seq<Seq<char>>) -> bool {
    forall|i: int, j: int| 0 <= i < j < names.len() ==> names[i] != names[j]
}

/// The display order in which the note at `source` has gone to `slot` and
/// every other note has kept its place among the others.
pub open spec fn order_after(order: Seq<int>, source: int, slot: int) -> Seq<int> {
    order.remove(source).insert(slot, order[source])
}

/// The place that the note shown at `at` has once the note at `source` has
/// gone to `slot`.
pub open spec fn moved_to(source: int, slot: int, at: int) -> int {
    if at == source {
        slot
    } else {
        let among = if at < source {
            at
        } else {
            at - 1
        };
        if among < slot {
            among
        } else {
            among + 1
        }
    }
}

/// The order after a move holds at each place the note that `moved_from`
/// names, and holds each note at the place that `moved_to` names.
proof fn lemma_order_after(order: Seq<int>, source: int, slot: int)
    requires
        0 <= source < order.len(),
        0 <= slot < order.len(),
    ensures
        order_after(order, source, slot).len() == order.len(),
        forall|pos: int|
            0 <= pos < order.len() ==> #[trigger] order_after(order, source, slot)[pos]
                == order[moved_from(source, slot, pos)],
        forall|at: int|
            0 <= at < order.len() ==> order_after(order, source, slot)[moved_to(source, slot, at)]
                == #[trigger] order[at],
        order_after(order, source, slot)[slot] == order[source],
{
    lemma_moved_order(order, source, slot);
    let next = order_after(order, source, slot);
    assert forall|at: int| 0 <= at < order.len() implies next[moved_to(source, slot, at)]
        == #[trigger] order[at] by {
        let pos = moved_to(source, slot, at);
        assert(next[pos] == order[moved_from(source, slot, pos)]);
    }
    assert(next[slot] == order[moved_from(source, slot, slot)]);
}

/// The key of the numbered note at place `i` of a directory.
pub open spec fn key_at(names: Seq<Seq<char>>, i: int) -> u64 {
    note_key(names[i]).unwrap()
}

/// A directory in which one note has a new key that lies strictly between
/// the keys of its new neighbours, and nothing else has changed, shows its
/// notes in the order after the move.
proof fn lemma_gap_order(
    names: Seq<Seq<char>>,
    after: Seq<Seq<char>>,
    order: Seq<int>,
    source: int,
    slot: int,
    key: u64,
)
    requires
        is_display_order(names, order),
        0 <= source < order.len(),
        0 <= slot < order.len(),
        after.len() == names.len(),
        forall|i: int| 0 <= i < names.len() && i != order[source] ==> #[trigger] after[i] == names[i],
        note_key(after[order[source]]) == Some(key),
        slot > 0 ==> key_at(names, order[stays_from(source, slot - 1)]) > key,
        slot < order.len() - 1 ==> key > key_at(names, order[stays_from(source, slot)]),
    ensures
        is_display_order(after, order_after(order, source, slot)),
{
    let next = order_after(order, source, slot);
    let moved = order[source];
    lemma_order_after(order, source, slot);
    assert forall|a: int, b: int| 0 <= a < b < order.len() implies #[trigger] order[a]
        != #[trigger] order[b] by {
        assert(shown_before(names, order[a], order[b]));
    }
    assert forall|pos: int| 0 <= pos < next.len() implies 0 <= #[trigger] next[pos] < after.len()
        && note_key(after[next[pos]]) is Some by {
        let from = moved_from(source, slot, pos);
        assert(next[pos] == order[from]);
        if from != source {
            assert(order[from] != order[source]);
        }
    }
    assert forall|i: int| 0 <= i < after.len() && note_key(
        #[trigger] after[i],
    ) is Some implies next.contains(i) by {
        if i != moved {
            assert(after[i] == names[i]);
        }
        assert(note_key(names[i]) is Some);
        assert(order.contains(i));
        let at = choose|k: int| 0 <= k < order.len() && order[k] == i;
        assert(next[moved_to(source, slot, at)] == order[at]);
    }
    assert forall|a: int, b: int| 0 <= a < b < next.len() implies shown_before(
        after,
        #[trigger] next[a],
        #[trigger] next[b],
    ) by {
        let from_a = moved_from(source, slot, a);
        let from_b = moved_from(source, slot, b);
        assert(next[a] == order[from_a]);
        assert(next[b] == order[from_b]);
        if a == slot {
            let edge = stays_from(source, slot);
            assert(order[from_b] != moved);
            assert(after[order[from_b]] == names[order[from_b]]);
            if edge < from_b {
                assert(shown_before(names, order[edge], order[from_b]));
            }
        } else if b == slot {
            let edge = stays_from(source, slot - 1);
            assert(order[from_a] != moved);
            assert(after[order[from_a]] == names[order[from_a]]);
            if from_a < edge {
                assert(shown_before(names, order[from_a], order[edge]));
            }
        } else {
            assert(from_a < from_b);
            assert(order[from_a] != moved && order[from_b] != moved);
            assert(shown_before(names, order[from_a], order[from_b]));
        }
    }
}

/// A directory in which the notes of the order after a move have keys that
/// fall from each place to the next, and nothing else has changed, shows
/// its notes in that order.
proof fn lemma_dense_order(
    names: Seq<Seq<char>>,
    after: Seq<Seq<char>>,
    order: Seq<int>,
    source: int,
    slot: int,
    top: u64,
)
    requires
        is_display_order(names, order),
        0 <= source < order.len(),
        0 <= slot < order.len(),
        after.len() == names.len(),
        top + order.len() <= u64::MAX,
        forall|i: int|
            0 <= i < names.len() && !order.contains(i) ==> #[trigger] after[i] == names[i],
        forall|pos: int|
            0 <= pos < order.len() ==> note_key(
                after[#[trigger] order_after(order, source, slot)[pos]],
            ) == Some(dense_key(top, order.len() as int, pos) as u64),
    ensures
        is_display_order(after, order_after(order, source, slot)),
{
    let next = order_after(order, source, slot);
    let count = order.len() as int;
    lemma_order_after(order, source, slot);
    assert forall|pos: int| 0 <= pos < next.len() implies 0 <= #[trigger] next[pos] < after.len()
        && note_key(after[next[pos]]) is Some by {
        assert(next[pos] == order[moved_from(source, slot, pos)]);
    }
    assert forall|i: int| 0 <= i < after.len() && note_key(
        #[trigger] after[i],
    ) is Some implies next.contains(i) by {
        if order.contains(i) {
            let at = choose|k: int| 0 <= k < order.len() && order[k] == i;
            assert(next[moved_to(source, slot, at)] == order[at]);
        } else {
            assert(after[i] == names[i]);
            assert(note_key(names[i]) is Some);
        }
    }
    assert forall|a: int, b: int| 0 <= a < b < next.len() implies shown_before(
        after,
        #[trigger] next[a],
        #[trigger] next[b],
    ) by {
        assert(note_key(after[next[a]]) == Some(dense_key(top, count, a) as u64));
        assert(note_key(after[next[b]]) == Some(dense_key(top, count, b) as u64));
    }
}

/// After the renames of a move into a gap, the moved note has its new
/// name and every other entry has the name it had.
proof fn lemma_gap_names(
    names: Seq<Seq<char>>,
    renames: Seq<RenameView>,
    target: Seq<char>,
    new_name: Seq<char>,
    moved: int,
)
    requires
        has_distinct_names(names),
        0 <= moved < names.len(),
        names[moved] == target,
        renames == if new_name == target {
            Seq::<RenameView>::empty()
        } else {
            seq![RenameView { from: target, to: new_name }]
        },
    ensures
        names_after(names, renames).len() == names.len(),
        names_after(names, renames)[moved] == new_name,
        forall|i: int|
            0 <= i < names.len() && i != moved ==> #[trigger] names_after(names, renames)[i]
                == names[i],
{
    let froms = renames.map_values(|r: RenameView| r.from);
    let after = names_after(names, renames);
    assert forall|i: int| 0 <= i < names.len() implies #[trigger] after[i] == if i == moved {
        new_name
    } else {
        names[i]
    } by {
        if renames.len() == 0 {
            lemma_absent(froms, names[i]);
        } else if i == moved {
            lemma_first_index(froms, names[i], 0);
        } else {
            assert(names[i] != names[moved]);
            lemma_absent(froms, names[i]);
        }
    }
}

/// An entry from which one rename starts, and no other, has the name that
/// this rename leads to.
proof fn lemma_renamed_each(
    renames: Seq<RenameView>,
    name: Seq<char>,
    turn: int,
)
    requires
        0 <= turn < renames.len(),
        renames[turn].from == name,
        forall|j: int| 0 <= j < renames.len() && j != turn ==> (#[trigger] renames[j]).from != name,
    ensures
        renamed_to(renames, name) == renames[turn].to,
{
    let froms = renames.map_values(|r: RenameView| r.from);
    assert forall|j: int| 0 <= j < turn implies froms[j] != name by {
        assert(renames[j].from != name);
    }
    lemma_first_index(froms, name, turn);
}

/// An entry that no rename starts from keeps its name.
proof fn lemma_renamed_none(renames: Seq<RenameView>, name: Seq<char>)
    requires
        forall|j: int| 0 <= j < renames.len() ==> (#[trigger] renames[j]).from != name,
    ensures
        renamed_to(renames, name) == name,
{
    let froms = renames.map_values(|r: RenameView| r.from);
    assert forall|j: int| 0 <= j < froms.len() implies froms[j] != name by {
        assert(renames[j].from != name);
    }
    lemma_absent(froms, name);
}

/// The turn at which a full renumbering renames the note at `pos`.
pub open spec fn turn_of(count: int, slot: int, pos: int) -> int {
    if pos < slot {
        pos
    } else if pos == slot {
        count - 1
    } else {
        pos - 1
    }
}

/// After the renames of a full renumbering, each note of the new order has
/// its new name, and every other entry has the name it had.
proof fn lemma_dense_names(
    names: Seq<Seq<char>>,
    next: Seq<int>,
    renames: Seq<RenameView>,
    slot: int,
)
    requires
        has_distinct_names(names),
        0 <= slot < next.len(),
        renames.len() == next.len(),
        forall|pos: int| 0 <= pos < next.len() ==> 0 <= #[trigger] next[pos] < names.len(),
        forall|p: int, q: int|
            0 <= p < q < next.len() ==> #[trigger] next[p] != #[trigger] next[q],
        forall|k: int|
            0 <= k < renames.len() ==> (#[trigger] renames[k]).from == names[next[dense_turn(
                next.len() as int,
                slot,
                k,
            )]],
    ensures
        forall|pos: int|
            0 <= pos < next.len() ==> names_after(names, renames)[#[trigger] next[pos]]
                == renames[turn_of(next.len() as int, slot, pos)].to,
        forall|i: int|
            0 <= i < names.len() && !next.contains(i) ==> #[trigger] names_after(names, renames)[i]
                == names[i],
{
    let count = next.len() as int;
    let after = names_after(names, renames);
    assert forall|pos: int| 0 <= pos < count implies after[#[trigger] next[pos]]
        == renames[turn_of(count, slot, pos)].to by {
        let turn = turn_of(count, slot, pos);
        assert(dense_turn(count, slot, turn) == pos);
        assert forall|j: int| 0 <= j < renames.len() && j != turn implies (
        #[trigger] renames[j]).from != names[next[pos]] by {
            let other = dense_turn(count, slot, j);
            assert(other != pos);
            assert(next[other] != next[pos]);
            if next[other] < next[pos] {
                assert(names[next[other]] != names[next[pos]]);
            } else {
                assert(names[next[pos]] != names[next[other]]);
            }
        }
        lemma_renamed_each(renames, names[next[pos]], turn);
    }
    assert forall|i: int| 0 <= i < names.len() && !next.contains(i) implies #[trigger] after[i]
        == names[i] by {
        assert forall|j: int| 0 <= j < renames.len() implies (#[trigger] renames[j]).from
            != names[i] by {
            let other = dense_turn(count, slot, j);
            assert(next.contains(next[other]));
            if next[other] < i {
                assert(names[next[other]] != names[i]);
            } else {
                assert(names[i] != names[next[other]]);
            }
        }
        lemma_renamed_none(renames, names[i]);
    }
}

/// Once the rename of a move into a gap has been made, the directory
/// shows its notes in the order after the move.
proof fn lemma_gap_realises_order(
    names: Seq<Seq<char>>,
    order: Seq<int>,
    source: int,
    slot: int,
    key: u64,
    plan: PlanView,
)
    requires
        has_distinct_names(names),
        is_display_order(names, order),
        0 <= source < order.len(),
        0 <= slot < order.len(),
        plan == gap_plan(names[order[source]], key),
        slot > 0 ==> key_at(names, order[stays_from(source, slot - 1)]) > key,
        slot < order.len() - 1 ==> key > key_at(names, order[stays_from(source, slot)]),
    ensures
        is_display_order(names_after(names, plan.renames), order_after(order, source, slot)),
        names_after(names, plan.renames)[order[source]] == plan.new_name,
{
    let target = names[order[source]];
    lemma_written_name(key, note_slug(target));
    lemma_gap_names(names, plan.renames, target, plan.new_name, order[source]);
    lemma_gap_order(names, names_after(names, plan.renames), order, source, slot, key);
}

/// The names of a full renumbering carry the keys of a full renumbering.
proof fn lemma_dense_keys(moved: Seq<Seq<char>>, top: u64)
    requires
        top + moved.len() <= u64::MAX,
    ensures
        forall|pos: int|
            0 <= pos < moved.len() ==> note_key(#[trigger] dense_name(moved, top, pos)) == Some(
                dense_key(top, moved.len() as int, pos) as u64,
            ),
{
    assert forall|pos: int| 0 <= pos < moved.len() implies note_key(
        #[trigger] dense_name(moved, top, pos),
    ) == Some(dense_key(top, moved.len() as int, pos) as u64) by {
        lemma_written_name(dense_key(top, moved.len() as int, pos) as u64, note_slug(moved[pos]));
    }
}

/// The order after a move holds no note twice.
proof fn lemma_order_after_distinct(
    names: Seq<Seq<char>>,
    order: Seq<int>,
    source: int,
    slot: int,
)
    requires
        is_display_order(names, order),
        0 <= source < order.len(),
        0 <= slot < order.len(),
    ensures
        forall|p: int, q: int|
            0 <= p < q < order.len() ==> #[trigger] order_after(order, source, slot)[p]
                != #[trigger] order_after(order, source, slot)[q],
        forall|i: int|
            order_after(order, source, slot).contains(i) ==> #[trigger] order.contains(i),
{
    let next = order_after(order, source, slot);
    lemma_order_after(order, source, slot);
    assert forall|p: int, q: int| 0 <= p < q < order.len() implies #[trigger] next[p]
        != #[trigger] next[q] by {
        let from_p = moved_from(source, slot, p);
        let from_q = moved_from(source, slot, q);
        assert(next[p] == order[from_p] && next[q] == order[from_q]);
        if from_p < from_q {
            assert(shown_before(names, order[from_p], order[from_q]));
        } else {
            assert(shown_before(names, order[from_q], order[from_p]));
        }
    }
    assert forall|i: int| next.contains(i) implies #[trigger] order.contains(i) by {
        let pos = choose|pos: int| 0 <= pos < next.len() && next[pos] == i;
        assert(next[pos] == order[moved_from(source, slot, pos)]);
    }
}

/// Once the renames of a full renumbering have been made, the directory
/// shows its notes in the order after the move.
proof fn lemma_dense_realises_order(
    names: Seq<Seq<char>>,
    order: Seq<int>,
    source: int,
    slot: int,
    top: u64,
    plan: PlanView,
)
    requires
        has_distinct_names(names),
        is_display_order(names, order),
        0 <= source < order.len(),
        0 <= slot < order.len(),
        top + order.len() <= u64::MAX,
        plan == dense_plan(
            names_at(names, order).remove(source).insert(slot, names[order[source]]),
            top,
            slot,
        ),
    ensures
        is_display_order(names_after(names, plan.renames), order_after(order, source, slot)),
        names_after(names, plan.renames)[order[source]] == plan.new_name,
{
    let shown = names_at(names, order);
    let count = order.len() as int;
    let moved = shown.remove(source).insert(slot, names[order[source]]);
    let next = order_after(order, source, slot);
    let after = names_after(names, plan.renames);
    lemma_order_after(order, source, slot);
    lemma_order_after_distinct(names, order, source, slot);
    lemma_moved_order(shown, source, slot);
    lemma_dense_keys(moved, top);
    assert forall|pos: int| 0 <= pos < count implies #[trigger] moved[pos] == names[next[pos]] by {
        assert(next[pos] == order[moved_from(source, slot, pos)]);
        assert(moved[pos] == shown[moved_from(source, slot, pos)]);
    }
    assert forall|k: int| 0 <= k < plan.renames.len() implies (#[trigger] plan.renames[k]).from
        == names[next[dense_turn(count, slot, k)]] by {
        assert(plan.renames[k].from == moved[dense_turn(count, slot, k)]);
    }
    assert forall|pos: int| 0 <= pos < count implies 0 <= #[trigger] next[pos] < names.len() by {
        assert(next[pos] == order[moved_from(source, slot, pos)]);
    }
    lemma_dense_names(names, next, plan.renames, slot);
    assert forall|pos: int| 0 <= pos < count implies note_key(after[#[trigger] next[pos]])
        == Some(dense_key(top, count, pos) as u64) by {
        let turn = turn_of(count, slot, pos);
        assert(dense_turn(count, slot, turn) == pos);
        assert(after[next[pos]] == plan.renames[turn].to);
        assert(plan.renames[turn].to == dense_name(moved, top, pos));
    }
    lemma_dense_order(names, after, order, source, slot, top);
    assert(after[next[slot]] == plan.renames[turn_of(count, slot, slot)].to);
}

/// A planned move does what it is for: once its renames have been made in
/// a directory, the notes are shown in the order that was asked for, with
/// the moved note at its slot under the name that the plan gives and every
/// other note in its place among the others.
pub proof fn lemma_plan_realises_order(
    names: Seq<Seq<char>>,
    order: Seq<int>,
    target: Seq<char>,
    new_index: int,
)
    requires
        has_distinct_names(names),
        is_display_order(names, order),
        is_move(names_at(names, order), target, new_index),
        new_index >= 0,
        reorder_outcome(names_at(names, order), target, new_index) is Ok,
    ensures
        ({
            let shown = names_at(names, order);
            let plan = reorder_outcome(shown, target, new_index).unwrap();
            let source = source_of(shown, target);
            let slot = slot_of(order.len() as int, new_index);
            &&& is_display_order(
                names_after(names, plan.renames),
                order_after(order, source, slot),
            )
            &&& order_after(order, source, slot)[slot] == order[source]
            &&& names_after(names, plan.renames)[order[source]] == plan.new_name
        }),
{
    let shown = names_at(names, order);
    let count = order.len() as int;
    let plan = reorder_outcome(shown, target, new_index).unwrap();
    let source = source_of(shown, target);
    let slot = slot_of(count, new_index);
    let rest = shown.remove(source);
    shown.index_of_first_ensures(target);
    lemma_order_after(order, source, slot);
    lemma_moved_order(shown, source, slot);
    assert(names[order[source]] == target);
    if has_gap(rest, slot) {
        let key = (key_below(rest, slot) + 1) as u64;
        if slot > 0 {
            assert(rest[slot - 1] == shown[stays_from(source, slot - 1)]);
        }
        if slot < count - 1 {
            assert(rest[slot] == shown[stays_from(source, slot)]);
        }
        lemma_gap_realises_order(names, order, source, slot, key, plan);
    } else {
        let top = note_key(shown[0]).unwrap();
        lemma_dense_realises_order(names, order, source, slot, top, plan);
    }
}

/// A move that changes nothing leaves the directory as it is.
pub proof fn lemma_no_renames_change_nothing(names: Seq<Seq<char>>)
    ensures
        names_after(names, Seq::empty()) == names,
{
    let none = Seq::<RenameView>::empty();
    let froms = none.map_values(|r: RenameView| r.from);
    assert forall|i: int| 0 <= i < names.len() implies names_after(names, none)[i] == names[i] by {
        lemma_absent(froms, names[i]);
    }
    assert(names_after(names, none) =~= names);
}

/// The first note shown carries the highest key of all that are shown.
pub proof fn lemma_first_shown_is_highest(names: Seq<Seq<char>>, order: Seq<int>)
    requires
        is_display_order(names, order),
    ensures
        forall|k: int|
            0 <= k < order.len() ==> key_at(names, #[trigger] order[k]) <= key_at(names, order[0]),
{
    assert forall|k: int| 0 <= k < order.len() implies key_at(names, #[trigger] order[k])
        <= key_at(names, order[0]) by {
        if k > 0 {
            assert(shown_before(names, order[0], order[k]));
        }
    }
}

/// No rename of a planned move takes the name of an entry of the
/// directory, and no two of them lead to the same name: making the renames
/// replaces no file.
pub proof fn lemma_plan_replaces_nothing(
    names: Seq<Seq<char>>,
    order: Seq<int>,
    target: Seq<char>,
    new_index: int,
)
    requires
        is_display_order(names, order),
        new_index >= 0,
        reorder_outcome(names_at(names, order), target, new_index) is Ok,
    ensures
        ({
            let plan = reorder_outcome(names_at(names, order), target, new_index).unwrap();
            &&& forall|k: int|
                0 <= k < plan.renames.len() ==> !names.contains((#[trigger] plan.renames[k]).to)
            &&& forall|k: int, l: int|
                0 <= k < l < plan.renames.len() ==> (#[trigger] plan.renames[k]).to != (
                #[trigger] plan.renames[l]).to
        }),
{
    let shown = names_at(names, order);
    let count = order.len() as int;
    let plan = reorder_outcome(shown, target, new_index).unwrap();
    if is_move(shown, target, new_index) {
        let source = source_of(shown, target);
        let slot = slot_of(count, new_index);
        let rest = shown.remove(source);
        shown.index_of_first_ensures(target);
        lemma_moved_order(shown, source, slot);
        if has_gap(rest, slot) {
            let key = (key_below(rest, slot) + 1) as u64;
            if slot > 0 {
                assert(rest[slot - 1] == shown[stays_from(source, slot - 1)]);
            }
            if slot < count - 1 {
                assert(rest[slot] == shown[stays_from(source, slot)]);
            }
            lemma_gap_key_is_free(names, order, source, slot, key);
            lemma_written_name(key, note_slug(target));
        } else {
            let top = note_key(shown[0]).unwrap();
            let moved = rest.insert(slot, target);
            lemma_first_shown_is_highest(names, order);
            lemma_dense_keys(moved, top);
            assert forall|k: int| 0 <= k < plan.renames.len() implies !names.contains(
                (#[trigger] plan.renames[k]).to,
            ) by {
                let to = plan.renames[k].to;
                assert(to == dense_name(moved, top, dense_turn(count, slot, k)));
                if names.contains(to) {
                    let i = choose|i: int| 0 <= i < names.len() && names[i] == to;
                    assert(order.contains(i));
                    let at = choose|at: int| 0 <= at < order.len() && order[at] == i;
                    assert(key_at(names, order[at]) <= top);
                }
            }
            assert forall|k: int, l: int| 0 <= k < l < plan.renames.len() implies (
            #[trigger] plan.renames[k]).to != (#[trigger] plan.renames[l]).to by {
                assert(plan.renames[k].to == dense_name(moved, top, dense_turn(count, slot, k)));
                assert(plan.renames[l].to == dense_name(moved, top, dense_turn(count, slot, l)));
            }
        }
    }
}

/// A key that lies strictly between the keys of the neighbours of a slot
/// is the key of no note that stays in place.
proof fn lemma_gap_key_is_free(
    names: Seq<Seq<char>>,
    order: Seq<int>,
    source: int,
    slot: int,
    key: u64,
)
    requires
        is_display_order(names, order),
        0 <= source < order.len(),
        0 <= slot < order.len(),
        slot > 0 ==> key_at(names, order[stays_from(source, slot - 1)]) > key,
        slot < order.len() - 1 ==> key > key_at(names, order[stays_from(source, slot)]),
    ensures
        forall|i: int|
            0 <= i < names.len() && i != order[source] ==> note_key(#[trigger] names[i]) != Some(
                key,
            ),
{
    assert forall|i: int| 0 <= i < names.len() && i != order[source] implies note_key(
        #[trigger] names[i],
    ) != Some(key) by {
        if note_key(names[i]) == Some(key) {
            assert(order.contains(i));
            let at = choose|at: int| 0 <= at < order.len() && order[at] == i;
            let among = if at < source {
                at
            } else {
                at - 1
            };
            if among < slot {
                let edge = stays_from(source, slot - 1);
                if at < edge {
                    assert(shown_before(names, order[at], order[edge]));
                }
            } else {
                let edge = stays_from(source, slot);
                if edge < at {
                    assert(shown_before(names, order[edge], order[at]));
                }
            }
        }
    }
}

/// No rename of a planned move gives a note a key that another entry of
/// the directory carries, and no two of them give the same key: at no point
/// of the pass do the renames put two notes onto one key.
pub proof fn lemma_new_keys_are_unused(
    names: Seq<Seq<char>>,
    order: Seq<int>,
    target: Seq<char>,
    new_index: int,
)
    requires
        is_display_order(names, order),
        new_index >= 0,
        reorder_outcome(names_at(names, order), target, new_index) is Ok,
    ensures
        ({
            let plan = reorder_outcome(names_at(names, order), target, new_index).unwrap();
            &&& forall|k: int|
                0 <= k < plan.renames.len() ==> note_key((#[trigger] plan.renames[k]).to) is Some
            &&& forall|k: int, i: int|
                0 <= k < plan.renames.len() && 0 <= i < names.len() && names[i]
                    != plan.renames[k].from ==> note_key(#[trigger] names[i]) != note_key(
                    (#[trigger] plan.renames[k]).to,
                )
            &&& forall|k: int, l: int|
                0 <= k < l < plan.renames.len() ==> note_key((#[trigger] plan.renames[k]).to)
                    != note_key((#[trigger] plan.renames[l]).to)
        }),
{
    let shown = names_at(names, order);
    let count = order.len() as int;
    let plan = reorder_outcome(shown, target, new_index).unwrap();
    if is_move(shown, target, new_index) {
        let source = source_of(shown, target);
        let slot = slot_of(count, new_index);
        let rest = shown.remove(source);
        shown.index_of_first_ensures(target);
        lemma_moved_order(shown, source, slot);
        if has_gap(rest, slot) {
            let key = (key_below(rest, slot) + 1) as u64;
            if slot > 0 {
                assert(rest[slot - 1] == shown[stays_from(source, slot - 1)]);
            }
            if slot < count - 1 {
                assert(rest[slot] == shown[stays_from(source, slot)]);
            }
            lemma_gap_key_is_free(names, order, source, slot, key);
            lemma_written_name(key, note_slug(target));
        } else {
            let top = note_key(shown[0]).unwrap();
            let moved = rest.insert(slot, target);
            lemma_first_shown_is_highest(names, order);
            lemma_dense_keys(moved, top);
            assert forall|k: int| 0 <= k < plan.renames.len() implies note_key(
                (#[trigger] plan.renames[k]).to,
            ) == Some(dense_key(top, count, dense_turn(count, slot, k)) as u64) by {
                assert(plan.renames[k].to == dense_name(moved, top, dense_turn(count, slot, k)));
            }
            assert forall|k: int, i: int|
                0 <= k < plan.renames.len() && 0 <= i < names.len() implies note_key(
                #[trigger] names[i],
            ) != note_key((#[trigger] plan.renames[k]).to) by {
                if note_key(names[i]) is Some {
                    assert(order.contains(i));
                    let at = choose|at: int| 0 <= at < order.len() && order[at] == i;
                    assert(key_at(names, order[at]) <= top);
                }
            }
        }
    }
}

} // verus!

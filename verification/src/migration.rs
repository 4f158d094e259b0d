//! The legacy migrator: notes named by a bare timestamp get a number and a
//! slug, the oldest first.

use crate::codec::{
    filename_of, format_filename, is_digit, is_legacy_chars, is_legacy_stem, is_note_name,
    note_stem, note_stem_chars, note_suffix, parse_unsigned, unsigned_decimal, untitled,
};
use crate::numbering::{
    entry_key, file_stem, highest_key, highest_number, lemma_highest_after_replace,
    lemma_highest_key, lemma_next_name_is_free, lemma_written_entry,
};
use crate::seqs::{lemma_absent, lemma_last_index};
use crate::slug::{slug_of, slugify};
use crate::sorting::{lemma_one_order, lists_in_order, ranks_before, sort_order, Rank};
use crate::text::{chars_of, names_at, names_of};
use crate::title::{default_title, parse_title, title_of};
use vstd::prelude::*;

verus! {

/// True when `name` is a note of the earlier naming scheme.
pub open spec fn is_legacy_note(name: Seq<char>) -> bool {
    is_note_name(name) && is_legacy_stem(note_stem(name))
}

/// The timestamp that a legacy note is named by; zero where the digits do
/// not fit in 64 bits.
pub open spec fn legacy_stamp(name: Seq<char>) -> u64 {
    match unsigned_decimal(note_stem(name)) {
        Some(stamp) => stamp,
        None => 0,
    }
}

/// True when the legacy note at `i` is migrated before the one at `j`: the
/// earlier timestamp first, and of two equal ones the one listed first.
pub open spec fn migrates_before(names: Seq<Seq<char>>, i: int, j: int) -> bool {
    legacy_stamp(names[i]) < legacy_stamp(names[j]) || (legacy_stamp(names[i]) == legacy_stamp(
        names[j],
    ) && i < j)
}

/// True when `order` holds the positions of exactly the legacy notes among
/// `names`, in the order in which they are migrated.
pub open spec fn is_migration_order(names: Seq<Seq<char>>, order: Seq<int>) -> bool {
    &&& forall|k: int|
        0 <= k < order.len() ==> 0 <= #[trigger] order[k] < names.len() && is_legacy_note(
            names[order[k]],
        )
    &&& forall|i: int|
        0 <= i < names.len() && is_legacy_note(#[trigger] names[i]) ==> order.contains(i)
    &&& forall|a: int, b: int|
        0 <= a < b < order.len() ==> migrates_before(names, #[trigger] order[a], #[trigger] order[b])
}

/// The timestamp of `name` where it is a legacy note.
fn legacy_stamp_of(name: &str) -> (stamp: Option<u64>)
    ensures
        stamp is Some <==> is_legacy_note(name@),
        stamp matches Some(value) ==> value == legacy_stamp(name@),
{
    let chars = chars_of(name);
    match note_stem_chars(&chars) {
        None => None,
        Some(stem) => {
            if !is_legacy_chars(&stem) {
                return None;
            }
            let n: usize = stem.len();
            assert(stem@.subrange(0, n as int) == stem@);
            match parse_unsigned(&stem, 0, n) {
                Some(value) => Some(value),
                None => Some(0),
            }
        },
    }
}

/// The legacy notes of a directory in the order in which they are to be
/// migrated: by ascending timestamp, so that the oldest note gets the lowest
/// number.
pub fn legacy_files(names: &Vec<String>) -> (legacy: Vec<String>)
    ensures
        exists|order: Seq<int>|
            is_migration_order(names_of(names@), order) && names_of(legacy@) == names_at(
                names_of(names@),
                order,
            ),
{
    let ghost views = names_of(names@);
    let mut found: Vec<usize> = Vec::new();
    let mut ranks: Vec<Rank> = Vec::new();
    let mut i: usize = 0;
    while i < names.len()
        invariant
            i <= names.len(),
            views == names_of(names@),
            found.len() == ranks.len(),
            forall|m: int|
                0 <= m < found.len() ==> (#[trigger] found[m]) < i && is_legacy_note(
                    views[found[m] as int],
                ),
            forall|m: int|
                0 <= m < ranks.len() ==> (#[trigger] ranks[m]).keyed && ranks[m].weight
                    == u64::MAX - legacy_stamp(views[found[m] as int]),
            forall|m: int, l: int|
                0 <= m < l < found.len() ==> (#[trigger] found[m]) < (#[trigger] found[l]),
            forall|j: int|
                0 <= j < i && is_legacy_note(#[trigger] views[j]) ==> found@.contains(j as usize),
        decreases names.len() - i,
    {
        let ghost before = found@;
        match legacy_stamp_of(names[i].as_str()) {
            Some(stamp) => {
                found.push(i);
                ranks.push(Rank { keyed: true, weight: u64::MAX - stamp });
                assert(found@[before.len() as int] == i);
            },
            None => {},
        }
        proof {
            assert forall|j: int| 0 <= j < i + 1 && is_legacy_note(
                #[trigger] views[j],
            ) implies found@.contains(j as usize) by {
                if j < i {
                    assert(before.contains(j as usize));
                    let m0 = choose|m: int| 0 <= m < before.len() && before[m] == j as usize;
                    assert(found@[m0] == j as usize);
                } else {
                    assert(found@[before.len() as int] == j as usize);
                }
            }
        }
        i += 1;
    }
    let order = sort_order(&ranks);
    let ghost positions = Seq::new(order.len() as nat, |k: int| found[order[k] as int] as int);
    let mut legacy: Vec<String> = Vec::new();
    let mut k: usize = 0;
    while k < order.len()
        invariant
            k <= order.len(),
            order.len() == found.len(),
            views == names_of(names@),
            forall|m: int| 0 <= m < order.len() ==> (#[trigger] order[m]) < found.len(),
            forall|m: int| 0 <= m < found.len() ==> (#[trigger] found[m]) < names.len(),
            legacy.len() == k,
            forall|m: int|
                0 <= m < k ==> (#[trigger] legacy[m])@ == views[found[order[m] as int] as int],
        decreases order.len() - k,
    {
        legacy.push(names[found[order[k]]].clone());
        k += 1;
    }
    proof {
        assert forall|j: int| 0 <= j < views.len() && is_legacy_note(
            #[trigger] views[j],
        ) implies positions.contains(j) by {
            assert(found@.contains(j as usize));
            let m0 = choose|m: int| 0 <= m < found.len() && found[m] == j as usize;
            assert(order@.contains(m0 as usize));
            let k0 = choose|k: int| 0 <= k < order.len() && order[k] == m0 as usize;
            assert(positions[k0] == j);
        }
        assert forall|a: int, b: int| 0 <= a < b < positions.len() implies migrates_before(
            views,
            #[trigger] positions[a],
            #[trigger] positions[b],
        ) by {
            assert(ranks_before(ranks@, order[a] as int, order[b] as int));
        }
        assert(is_migration_order(views, positions));
        assert(names_of(legacy@) =~= names_at(views, positions));
    }
    legacy
}

/// The slug under which a note with the title `title` is filed: the slug of
/// the title, or `untitled` where the note has no title of its own or the
/// title has no slug.
pub open spec fn title_slug(title: Seq<char>) -> Seq<char> {
    if title == default_title() || title.len() == 0 || slug_of(title).len() == 0 {
        untitled()
    } else {
        slug_of(title)
    }
}

/// The slug under which a note with the content `content` is filed.
pub open spec fn content_slug(content: Seq<char>) -> Seq<char> {
    title_slug(title_of(content))
}

/// Derives the slug under which a note with the given title is filed.
pub fn slug_for_title(title: &str) -> (slug: String)
    ensures
        slug@ == title_slug(title@),
{
    let fallback = "untitled".to_owned();
    proof {
        reveal_strlit("untitled");
        reveal_strlit("Untitled");
        assert(fallback@ =~= untitled());
        assert("Untitled"@ =~= default_title());
    }
    let own = title.to_owned();
    let placeholder = "Untitled".to_owned();
    if own == placeholder || title.is_empty() {
        return fallback;
    }
    let slug = slugify(title);
    if slug.as_str().is_empty() {
        fallback
    } else {
        slug
    }
}

/// The name that a legacy note with the content `content` gets in a
/// directory whose entries are `names`: the next unused number, and the slug
/// of its title. There is none where the highest number is already the
/// largest that fits.
pub open spec fn migrated_name(names: Seq<Seq<char>>, content: Seq<char>) -> Option<Seq<char>> {
    if highest_key(names) < u64::MAX {
        Some(filename_of((highest_key(names) + 1) as u64, content_slug(content)))
    } else {
        None
    }
}

/// Names the file that a legacy note is renamed to. The number is taken
/// from the directory as it is now, so that notes migrated one after the
/// other get rising numbers.
pub fn migration_target(names: &Vec<String>, content: &str) -> (target: Option<String>)
    ensures
        match target {
            Some(name) => migrated_name(names_of(names@), content@) == Some(name@),
            None => migrated_name(names_of(names@), content@) is None,
        },
{
    let top = highest_number(names);
    if top == u64::MAX {
        return None;
    }
    let title = parse_title(content);
    let slug = slug_for_title(title.as_str());
    Some(format_filename(top + 1, slug.as_str()))
}

/// A legacy note carries no ordering key, so it does not count when the
/// next number is sought.
pub proof fn lemma_legacy_has_no_key(name: Seq<char>)
    requires
        is_legacy_note(name),
    ensures
        entry_key(name) is None,
{
    let stem = note_stem(name);
    let dot = stem.len() as int;
    let tail = name.skip(name.len() - 3);
    assert(tail[0] == name[dot] && tail[1] == name[dot + 1] && tail[2] == name[dot + 2]);
    assert(note_suffix()[0] == '.' && note_suffix()[1] == 'm' && note_suffix()[2] == 'd');
    lemma_last_index(name, '.', dot);
    assert(file_stem(name) == stem);
    assert forall|j: int| 0 <= j < stem.len() implies stem[j] != '-' by {
        assert(is_digit(stem[j]));
    }
    lemma_absent(stem, '-');
}

/// Once a legacy note has been renamed to its target, the target carries
/// the number that was next, and the next number of the directory is one
/// higher: notes migrated one after the other get strictly rising keys.
pub proof fn lemma_migration_raises_next(names: Seq<Seq<char>>, i: int, content: Seq<char>)
    requires
        0 <= i < names.len(),
        is_legacy_note(names[i]),
        migrated_name(names, content) is Some,
    ensures
        entry_key(migrated_name(names, content).unwrap()) == Some(
            (highest_key(names) + 1) as u64,
        ),
        highest_key(names.update(i, migrated_name(names, content).unwrap())) == highest_key(
            names,
        ) + 1,
{
    let target = migrated_name(names, content).unwrap();
    lemma_legacy_has_no_key(names[i]);
    lemma_written_entry((highest_key(names) + 1) as u64, content_slug(content));
    lemma_highest_after_replace(names, i, target);
}

/// A directory has one migration order only.
pub proof fn lemma_one_migration_order(names: Seq<Seq<char>>, first: Seq<int>, second: Seq<int>)
    requires
        is_migration_order(names, first),
        is_migration_order(names, second),
    ensures
        first == second,
{
    let members = Set::new(|i: int| 0 <= i < names.len() && is_legacy_note(names[i]));
    let before = |i: int, j: int| migrates_before(names, i, j);
    assert(lists_in_order(first, members, before));
    assert(lists_in_order(second, members, before));
    lemma_one_order(first, second, members, before);
}

/// The name that a legacy note is renamed to is the name of no entry: the
/// rename replaces nothing.
pub proof fn lemma_migration_replaces_nothing(names: Seq<Seq<char>>, content: Seq<char>)
    requires
        migrated_name(names, content) is Some,
    ensures
        !names.contains(migrated_name(names, content).unwrap()),
{
    lemma_next_name_is_free(names, content_slug(content));
}


/// The entries of a directory once the first `done` legacy notes of the
/// migration order have been renamed, one after the other, each to the name
/// that the directory gives it at its turn. `contents[k]` is the content of
/// the note that is migrated at turn `k`.
pub open spec fn after_migrating(
    names: Seq<Seq<char>>,
    order: Seq<int>,
    contents: Seq<Seq<char>>,
    done: int,
) -> Seq<Seq<char>>
    decreases done,
{
    if done <= 0 {
        names
    } else {
        let before = after_migrating(names, order, contents, done - 1);
        match migrated_name(before, contents[done - 1]) {
            Some(target) => before.update(order[done - 1], target),
            None => before,
        }
    }
}

/// What a pass has done after `done` turns, as long as the numbers last:
/// the note of each turn has the number that follows the one before it,
/// starting above the highest number that the directory had, and the slug of
/// its title; every other entry has the name it had.
pub proof fn lemma_migration_pass(
    names: Seq<Seq<char>>,
    order: Seq<int>,
    contents: Seq<Seq<char>>,
    done: int,
)
    requires
        is_migration_order(names, order),
        contents.len() == order.len(),
        0 <= done <= order.len(),
        highest_key(names) + done <= u64::MAX,
    ensures
        after_migrating(names, order, contents, done).len() == names.len(),
        highest_key(after_migrating(names, order, contents, done)) == highest_key(names) + done,
        forall|k: int|
            0 <= k < done ==> after_migrating(names, order, contents, done)[#[trigger] order[k]]
                == filename_of((highest_key(names) + 1 + k) as u64, content_slug(contents[k])),
        forall|i: int|
            0 <= i < names.len() && !order.take(done).contains(i) ==> #[trigger] after_migrating(
                names,
                order,
                contents,
                done,
            )[i] == names[i],
    decreases done,
{
    if done > 0 {
        let turn = done - 1;
        let before = after_migrating(names, order, contents, turn);
        let after = after_migrating(names, order, contents, done);
        let at = order[turn];
        lemma_migration_pass(names, order, contents, turn);
        assert forall|k: int| 0 <= k < turn implies #[trigger] order[k] != at by {
            assert(migrates_before(names, order[k], order[turn]));
        }
        assert(!order.take(turn).contains(at));
        assert(before[at] == names[at]);
        lemma_legacy_has_no_key(names[at]);
        let target = migrated_name(before, contents[turn]).unwrap();
        lemma_written_entry((highest_key(before) + 1) as u64, content_slug(contents[turn]));
        lemma_highest_after_replace(before, at, target);
        assert forall|i: int| 0 <= i < names.len() && !order.take(done).contains(i) implies after[i]
            == names[i] by {
            assert(order.take(done)[turn] == at);
            if order.take(turn).contains(i) {
                let k = choose|k: int| 0 <= k < turn && order.take(turn)[k] == i;
                assert(order.take(done)[k] == i);
            }
        }
    }
}

/// A pass in which every rename succeeds turns the order of the timestamps
/// into the order of the keys: of two legacy notes, the one with the earlier
/// timestamp gets the lower key, and both keys lie above every key that the
/// directory had before the pass.
pub proof fn lemma_migration_keeps_chronological_order(
    names: Seq<Seq<char>>,
    order: Seq<int>,
    contents: Seq<Seq<char>>,
    earlier: int,
    later: int,
)
    requires
        is_migration_order(names, order),
        contents.len() == order.len(),
        highest_key(names) + order.len() <= u64::MAX,
        0 <= earlier < names.len(),
        0 <= later < names.len(),
        is_legacy_note(names[earlier]),
        is_legacy_note(names[later]),
        legacy_stamp(names[earlier]) < legacy_stamp(names[later]),
    ensures
        ({
            let after = after_migrating(names, order, contents, order.len() as int);
            &&& entry_key(after[earlier]) is Some
            &&& entry_key(after[later]) is Some
            &&& highest_key(names) < entry_key(after[earlier]).unwrap() < entry_key(
                after[later],
            ).unwrap()
            &&& forall|i: int|
                0 <= i < names.len() ==> (entry_key(#[trigger] names[i]) matches Some(key) ==> key
                    < entry_key(after[earlier]).unwrap())
        }),
{
    let count = order.len() as int;
    assert(order.contains(earlier));
    assert(order.contains(later));
    let first = choose|k: int| 0 <= k < order.len() && order[k] == earlier;
    let second = choose|k: int| 0 <= k < order.len() && order[k] == later;
    if second < first {
        assert(migrates_before(names, order[second], order[first]));
    }
    lemma_migration_pass(names, order, contents, count);
    lemma_written_entry(
        (highest_key(names) + 1 + first) as u64,
        content_slug(contents[first]),
    );
    lemma_written_entry(
        (highest_key(names) + 1 + second) as u64,
        content_slug(contents[second]),
    );
    lemma_highest_key(names);
}

} // verus!

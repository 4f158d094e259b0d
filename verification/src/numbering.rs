//! The numbering allocator: the next unused ordering key of a directory.

use crate::codec::{
    filename_of, lemma_decimal_digits, lemma_key_round_trip, ordering_key, parse_file_number,
    stem_of,
};
use crate::seqs::{lemma_absent_last, lemma_last_index};
use crate::text::{chars_of, names_of, string_of};
use vstd::prelude::*;

verus! {

/// The stem of a directory entry: the name up to its last dot. A name
/// without a dot, or with its only dot in front, is its own stem, and so is
/// the name `..`.
pub open spec fn file_stem(name: Seq<char>) -> Seq<char> {
    match name.index_of_last('.') {
        Some(dot) => if dot > 0 && name != seq!['.', '.'] {
            name.take(dot)
        } else {
            name
        },
        None => name,
    }
}

/// The ordering key that a directory entry carries, whatever its extension.
pub open spec fn entry_key(name: Seq<char>) -> Option<u64> {
    ordering_key(file_stem(name))
}

/// The highest ordering key among the entries, or zero where none carries
/// a key.
pub open spec fn highest_key(names: Seq<Seq<char>>) -> nat
    decreases names.len(),
{
    if names.len() == 0 {
        0
    } else {
        let rest = highest_key(names.drop_last());
        match entry_key(names.last()) {
            Some(key) => if key > rest {
                key as nat
            } else {
                rest
            },
            None => rest,
        }
    }
}

/// The highest key is no lower than the key of any entry, and it is the
/// key of some entry unless it is zero.
pub proof fn lemma_highest_key(names: Seq<Seq<char>>)
    ensures
        forall|i: int|
            0 <= i < names.len() ==> (entry_key(#[trigger] names[i]) matches Some(key) ==> key
                <= highest_key(names)),
        highest_key(names) == 0 || exists|i: int|
            0 <= i < names.len() && entry_key(#[trigger] names[i]) == Some(
                highest_key(names) as u64,
            ),
        highest_key(names) <= u64::MAX,
    decreases names.len(),
{
    if names.len() > 0 {
        let front = names.drop_last();
        lemma_highest_key(front);
        assert forall|i: int| 0 <= i < names.len() implies (entry_key(
            #[trigger] names[i],
        ) matches Some(key) ==> key <= highest_key(names)) by {
            if i < front.len() {
                assert(front[i] == names[i]);
            }
        }
        if highest_key(names) != 0 {
            if highest_key(names) == highest_key(front) {
                let i = choose|i: int|
                    0 <= i < front.len() && entry_key(#[trigger] front[i]) == Some(
                        highest_key(front) as u64,
                    );
                assert(names[i] == front[i]);
            } else {
                assert(entry_key(names[names.len() - 1]) == Some(highest_key(names) as u64));
            }
        }
    }
}

/// The stem of the directory entry `name`.
fn stem_chars(name: &Vec<char>) -> (stem: Vec<char>)
    ensures
        stem@ == file_stem(name@),
{
    let n: usize = name.len();
    let mut dot: usize = n;
    while dot > 0 && name[dot - 1] != '.'
        invariant
            dot <= n,
            n == name.len(),
            forall|j: int| dot <= j < n ==> name@[j] != '.',
        decreases dot,
    {
        dot -= 1;
    }
    let keep: usize = if dot == 0 {
        proof {
            lemma_absent_last(name@, '.');
        }
        n
    } else {
        proof {
            lemma_last_index(name@, '.', dot - 1);
        }
        if dot - 1 > 0 && !(n == 2 && name[0] == '.') {
            assert(name@ != seq!['.', '.']) by {
                if name@ == seq!['.', '.'] {
                    assert(name@.len() == 2 && name@[0] == '.');
                }
            }
            dot - 1
        } else {
            proof {
                if dot - 1 > 0 {
                    assert(n == 2 && name@[0] == '.' && name@[1] == '.');
                    assert(name@ =~= seq!['.', '.']);
                }
            }
            n
        }
    };
    let mut stem: Vec<char> = Vec::new();
    let mut i: usize = 0;
    while i < keep
        invariant
            i <= keep <= name.len(),
            stem@ == name@.take(i as int),
        decreases keep - i,
    {
        stem.push(name[i]);
        i += 1;
    }
    assert(name@.take(n as int) == name@);
    stem
}

/// The stem of a directory entry: its name without the extension.
pub fn stem_of_entry(name: &str) -> (stem: String)
    ensures
        stem@ == file_stem(name@),
{
    let chars = chars_of(name);
    let stem = stem_chars(&chars);
    string_of(&stem)
}

/// The highest ordering key among the entries of a directory, or zero
/// where no entry carries one. Entries that carry no key are passed over.
pub fn highest_number(names: &Vec<String>) -> (top: u64)
    ensures
        top == highest_key(names_of(names@)),
        forall|i: int|
            0 <= i < names.len() ==> (entry_key(#[trigger] names_of(names@)[i]) matches Some(key)
                ==> key <= top),
        top == 0 || exists|i: int|
            0 <= i < names.len() && entry_key(#[trigger] names_of(names@)[i]) == Some(top),
{
    let ghost views = names_of(names@);
    let mut top: u64 = 0;
    let mut i: usize = 0;
    while i < names.len()
        invariant
            i <= names.len(),
            views == names_of(names@),
            top == highest_key(views.take(i as int)),
        decreases names.len() - i,
    {
        let stem = stem_of_entry(names[i].as_str());
        assert(views.take(i + 1).drop_last() == views.take(i as int));
        assert(views.take(i + 1).last() == names@[i as int]@);
        match parse_file_number(stem.as_str()) {
            Some(key) => {
                if key > top {
                    top = key;
                }
            },
            None => {},
        }
        i += 1;
    }
    proof {
        assert(views.take(i as int) == views);
        lemma_highest_key(views);
    }
    top
}

/// The next unused ordering key of a directory: one more than the highest
/// key that any of its entries carries, and 1 where none carries a key.
pub fn get_next_number(names: &Vec<String>) -> (next: u64)
    requires
        highest_key(names_of(names@)) < u64::MAX,
    ensures
        next == highest_key(names_of(names@)) + 1,
        forall|i: int|
            0 <= i < names.len() ==> (entry_key(#[trigger] names_of(names@)[i]) matches Some(key)
                ==> key < next),
        next == 1 || exists|i: int|
            0 <= i < names.len() && entry_key(#[trigger] names_of(names@)[i]) == Some(
                (next - 1) as u64,
            ),
{
    highest_number(names) + 1
}

/// A written file name has the written stem as its stem, and as a directory
/// entry it carries the key it was written for.
pub proof fn lemma_written_entry(number: u64, slug: Seq<char>)
    ensures
        file_stem(filename_of(number, slug)) == stem_of(number, slug),
        entry_key(filename_of(number, slug)) == Some(number),
{
    let name = filename_of(number, slug);
    let stem = stem_of(number, slug);
    let dot = stem.len() as int;
    assert(name[dot] == '.' && name[dot + 1] == 'm' && name[dot + 2] == 'd');
    lemma_last_index(name, '.', dot);
    lemma_decimal_digits(number as nat);
    assert(name.len() > 3);
    assert(name.take(dot) =~= stem);
    lemma_key_round_trip(number, slug);
}

/// Replacing an entry that carries no key by one that carries a key no
/// lower than the highest makes that key the highest.
pub proof fn lemma_highest_after_replace(names: Seq<Seq<char>>, i: int, entry: Seq<char>)
    requires
        0 <= i < names.len(),
        entry_key(names[i]) is None,
        entry_key(entry) is Some,
        entry_key(entry).unwrap() >= highest_key(names),
    ensures
        highest_key(names.update(i, entry)) == entry_key(entry).unwrap(),
    decreases names.len(),
{
    let after = names.update(i, entry);
    let front = names.drop_last();
    if i == names.len() - 1 {
        assert(after.drop_last() == front);
    } else {
        assert(after.drop_last() == front.update(i, entry));
        assert(front[i] == names[i]);
        lemma_highest_after_replace(front, i, entry);
    }
}

/// The name written for the next number is the name of no entry: a file
/// made under it replaces nothing.
pub proof fn lemma_next_name_is_free(names: Seq<Seq<char>>, slug: Seq<char>)
    requires
        highest_key(names) < u64::MAX,
    ensures
        !names.contains(filename_of((highest_key(names) + 1) as u64, slug)),
{
    let name = filename_of((highest_key(names) + 1) as u64, slug);
    lemma_written_entry((highest_key(names) + 1) as u64, slug);
    lemma_highest_key(names);
    if names.contains(name) {
        let i = choose|i: int| 0 <= i < names.len() && names[i] == name;
        assert(entry_key(names[i]) == Some((highest_key(names) + 1) as u64));
    }
}

} // verus!

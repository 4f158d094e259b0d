//! Facts about the first and the last place at which a value occurs in a
//! sequence.

use vstd::prelude::*;

verus! {

/// A place that holds `needle`, with no `needle` before it, is the first
/// place at which `needle` occurs.
pub proof fn lemma_first_index<A>(s: Seq<A>, needle: A, at: int)
    requires
        0 <= at < s.len(),
        s[at] == needle,
        forall|j: int| 0 <= j < at ==> s[j] != needle,
    ensures
        s.index_of_first(needle) == Some(at),
{
    s.index_of_first_ensures(needle);
    assert(s.contains(needle));
}

/// A value that is nowhere in a sequence has no first place in it.
pub proof fn lemma_absent<A>(s: Seq<A>, needle: A)
    requires
        forall|j: int| 0 <= j < s.len() ==> s[j] != needle,
    ensures
        s.index_of_first(needle) is None,
{
    s.index_of_first_ensures(needle);
}

/// A place that holds `needle`, with no `needle` after it, is the last
/// place at which `needle` occurs.
pub proof fn lemma_last_index<A>(s: Seq<A>, needle: A, at: int)
    requires
        0 <= at < s.len(),
        s[at] == needle,
        forall|j: int| at < j < s.len() ==> s[j] != needle,
    ensures
        s.index_of_last(needle) == Some(at),
{
    s.index_of_last_ensures(needle);
    assert(s.contains(needle));
}

/// A value that is nowhere in a sequence has no last place in it.
pub proof fn lemma_absent_last<A>(s: Seq<A>, needle: A)
    requires
        forall|j: int| 0 <= j < s.len() ==> s[j] != needle,
    ensures
        s.index_of_last(needle) is None,
{
    s.index_of_last_ensures(needle);
}

} // verus!

//! A stable ordering of items by rank: numbered items first, heavier ones
//! first among equals, and earlier ones first where nothing else decides.

use vstd::prelude::*;

verus! {

/// What decides where an item is shown: whether it carries a number, and
/// the weight by which it is compared with items of its own kind.
#[derive(Clone, Copy, Debug)]
pub struct Rank {
    pub keyed: bool,
    pub weight: u64,
}

/// True when item `i` is shown before item `j`: a keyed item before an
/// unkeyed one, then the heavier one first, then the one that came first.
pub open spec fn ranks_before(ranks: Seq<Rank>, i: int, j: int) -> bool {
    if ranks[i].keyed != ranks[j].keyed {
        ranks[i].keyed
    } else if ranks[i].weight != ranks[j].weight {
        ranks[i].weight > ranks[j].weight
    } else {
        i < j
    }
}

/// True when the first `count` positions of `ranks` are listed in `order`,
/// each exactly once and before all that it is shown before.
pub open spec fn is_sorted_prefix(ranks: Seq<Rank>, order: Seq<usize>, count: int) -> bool {
    &&& order.len() == count
    &&& forall|k: int| 0 <= k < order.len() ==> (#[trigger] order[k]) < count
    &&& forall|i: usize| i < count ==> #[trigger] order.contains(i)
    &&& forall|a: int, b: int|
        0 <= a < b < order.len() ==> ranks_before(ranks, #[trigger] order[a] as int, #[trigger] order[b] as int)
}

/// True when `order` lists every position of `ranks` exactly once, each
/// before all that it is shown before.
pub open spec fn is_sorted_order(ranks: Seq<Rank>, order: Seq<usize>) -> bool {
    is_sorted_prefix(ranks, order, ranks.len() as int)
}

/// True when an item of rank `a` outranks an item of rank `b`, leaving ties
/// aside.
fn outranks(a: Rank, b: Rank) -> (r: bool)
    ensures
        r == (if a.keyed != b.keyed {
            a.keyed
        } else {
            a.weight > b.weight
        }),
{
    if a.keyed != b.keyed {
        a.keyed
    } else {
        a.weight > b.weight
    }
}

/// The positions of `ranks` in the order in which the items are shown.
pub fn sort_order(ranks: &Vec<Rank>) -> (order: Vec<usize>)
    ensures
        is_sorted_order(ranks@, order@),
{
    let mut order: Vec<usize> = Vec::new();
    let mut i: usize = 0;
    while i < ranks.len()
        invariant
            i <= ranks.len(),
            is_sorted_prefix(ranks@, order@, i as int),
        decreases ranks.len() - i,
    {
        let mut k: usize = 0;
        while k < order.len() && !outranks(ranks[i], ranks[order[k]])
            invariant
                i < ranks.len(),
                k <= order.len(),
                is_sorted_prefix(ranks@, order@, i as int),
                forall|m: int| 0 <= m < k ==> ranks_before(ranks@, #[trigger] order@[m] as int, i as int),
            decreases order.len() - k,
        {
            k += 1;
        }
        let ghost before = order@;
        order.insert(k, i);
        proof {
            let after = order@;
            assert forall|a: int, b: int| 0 <= a < b < after.len() implies ranks_before(
                ranks@,
                #[trigger] after[a] as int,
                #[trigger] after[b] as int,
            ) by {
                if b < k {
                    assert(after[a] == before[a] && after[b] == before[b]);
                } else if b == k {
                    assert(after[a] == before[a]);
                } else if a < k {
                    assert(after[a] == before[a] && after[b] == before[b - 1]);
                } else if a == k {
                    assert(after[b] == before[b - 1]);
                    assert(ranks_before(ranks@, i as int, before[k as int] as int));
                    if b - 1 > k {
                        assert(ranks_before(ranks@, before[k as int] as int, before[b - 1] as int));
                    }
                } else {
                    assert(after[a] == before[a - 1] && after[b] == before[b - 1]);
                }
            }
            assert forall|j: usize| j < i + 1 implies #[trigger] after.contains(j) by {
                if j == i {
                    assert(after[k as int] == j);
                } else {
                    assert(before.contains(j));
                    let m0 = choose|m: int| 0 <= m < before.len() && before[m] == j;
                    if m0 < k {
                        assert(after[m0] == j);
                    } else {
                        assert(after[m0 + 1] == j);
                    }
                }
            }
        }
        i += 1;
    }
    order
}

/// True when `order` lists exactly the positions in `members`, each before
/// all those that it comes `before`.
pub open spec fn lists_in_order(
    order: Seq<int>,
    members: Set<int>,
    before: spec_fn(int, int) -> bool,
) -> bool {
    &&& forall|k: int| 0 <= k < order.len() ==> members.contains(#[trigger] order[k])
    &&& forall|i: int| members.contains(i) ==> #[trigger] order.contains(i)
    &&& forall|a: int, b: int|
        0 <= a < b < order.len() ==> before(#[trigger] order[a], #[trigger] order[b])
}

/// Two lists of the same positions in the same order agree on their first
/// `k` places.
proof fn lemma_same_prefix(
    first: Seq<int>,
    second: Seq<int>,
    members: Set<int>,
    before: spec_fn(int, int) -> bool,
    k: int,
)
    requires
        lists_in_order(first, members, before),
        lists_in_order(second, members, before),
        forall|i: int, j: int| !(#[trigger] before(i, j) && before(j, i)),
        0 <= k <= first.len(),
    ensures
        k <= second.len(),
        forall|j: int| 0 <= j < k ==> first[j] == second[j],
    decreases k,
{
    if k > 0 {
        lemma_same_prefix(first, second, members, before, k - 1);
        let at = k - 1;
        let here = first[at];
        assert(members.contains(here));
        assert(second.contains(here));
        let there = choose|m: int| 0 <= m < second.len() && second[m] == here;
        if there < at {
            assert(first[there] == second[there]);
            assert(before(first[there], first[at]));
            assert(false);
        }
        if there > at {
            let other = second[at];
            assert(members.contains(other));
            assert(first.contains(other));
            let back = choose|m: int| 0 <= m < first.len() && first[m] == other;
            assert(before(second[at], second[there]));
            if back < at {
                assert(first[back] == second[back]);
                assert(before(second[back], second[at]));
                assert(false);
            }
            if back > at {
                assert(before(first[at], first[back]));
                assert(false);
            }
        }
    }
}

/// There is one way only to list given positions in a given order, as long
/// as no two positions come before each other.
pub proof fn lemma_one_order(
    first: Seq<int>,
    second: Seq<int>,
    members: Set<int>,
    before: spec_fn(int, int) -> bool,
)
    requires
        lists_in_order(first, members, before),
        lists_in_order(second, members, before),
        forall|i: int, j: int| !(#[trigger] before(i, j) && before(j, i)),
    ensures
        first == second,
{
    lemma_same_prefix(first, second, members, before, first.len() as int);
    lemma_same_prefix(second, first, members, before, second.len() as int);
    assert(first =~= second);
}

} // verus!

//! The search frontier: entries waiting to be expanded, the order in which
//! they are served, and facts about appending to it.
use crate::grid::GridCell;
use vstd::prelude::*;

verus! {

/// A cell waiting in the frontier: `g` is the step count at which it was
/// reached, `cost` the estimate `g + h` of a whole route through it.
#[derive(Clone, Copy, Debug, PartialEq, Eq, Structural)]
pub struct FrontierEntry {
    pub cell: GridCell,
    pub g: u64,
    pub cost: u64,
}

/// `a` is served strictly before `b`: a smaller estimated cost, or an equal
/// one with more of it already walked (less of it left to guess).
pub open spec fn outranks(a: FrontierEntry, b: FrontierEntry) -> bool {
    a.cost < b.cost || (a.cost == b.cost && a.g > b.g)
}

/// The index of the entry that the search expands next: the smallest
/// estimated cost, ties going to the larger step count and then to the
/// entry inserted first.
pub fn best_entry(open_set: &Vec<FrontierEntry>) -> (idx: usize)
    requires
        open_set@.len() > 0,
    ensures
        idx < open_set@.len(),
        forall|j: int| 0 <= j < open_set@.len() ==> !outranks(#[trigger] open_set@[j], open_set@[idx as int]),
        forall|j: int| 0 <= j < idx ==> outranks(open_set@[idx as int], #[trigger] open_set@[j]),
{
    let mut best: usize = 0;
    let mut i: usize = 1;
    while i < open_set.len()
        invariant
            1 <= i <= open_set@.len(),
            best < i,
            forall|j: int| 0 <= j < i ==> !outranks(#[trigger] open_set@[j], open_set@[best as int]),
            forall|j: int| 0 <= j < best ==> outranks(open_set@[best as int], #[trigger] open_set@[j]),
        decreases open_set@.len() - i,
    {
        let a = open_set[i];
        let b = open_set[best];
        if a.cost < b.cost || (a.cost == b.cost && a.g > b.g) {
            best = i;
        }
        i = i + 1;
    }
    best
}

/// Entry `w` is served before every entry ahead of it in the frontier.
#[verifier::opaque]
pub open spec fn first_of_rank(os: Seq<FrontierEntry>, w: int) -> bool {
    forall|i: int| 0 <= i < w ==> outranks(os[w], #[trigger] os[i])
}

/// Every frontier entry is served after one of cost `d` that is one step
/// past level `lv`.
#[verifier::opaque]
pub open spec fn all_behind(os: Seq<FrontierEntry>, d: int, lv: int) -> bool {
    forall|i: int|
        0 <= i < os.len() ==> d < (#[trigger] os[i]).cost || (d == os[i].cost && os[i].g < d - lv
            + 1)
}

/// Appending an entry keeps the one that is served first among those ahead
/// of it.
pub proof fn lemma_push_keeps_first(os: Seq<FrontierEntry>, e: FrontierEntry, w: int)
    requires
        0 <= w < os.len(),
        first_of_rank(os, w),
    ensures
        os.push(e)[w] == os[w],
        first_of_rank(os.push(e), w),
{
    reveal(first_of_rank);
    let os2 = os.push(e);
    assert forall|i: int| 0 <= i < w implies outranks(os2[w], #[trigger] os2[i]) by {
        assert(os2[i] == os[i]);
        assert(outranks(os[w], os[i]));
    }
}

/// An entry appended one step past level `lv`, behind which all others
/// stand, is served before every entry ahead of it.
pub proof fn lemma_push_first(os: Seq<FrontierEntry>, e: FrontierEntry, d: int, lv: int)
    requires
        all_behind(os, d, lv),
        e.cost == d,
        e.g == d - lv + 1,
    ensures
        os.push(e)[os.len() as int] == e,
        first_of_rank(os.push(e), os.len() as int),
{
    reveal(first_of_rank);
    reveal(all_behind);
    let os2 = os.push(e);
    assert forall|i: int| 0 <= i < os.len() implies outranks(os2[os.len() as int], #[trigger] os2[i]) by {
        assert(os2[i] == os[i]);
    }
}

/// Appending an entry of larger cost keeps every entry behind.
pub proof fn lemma_push_behind(os: Seq<FrontierEntry>, e: FrontierEntry, d: int, lv: int)
    requires
        all_behind(os, d, lv),
        e.cost > d,
    ensures
        all_behind(os.push(e), d, lv),
{
    reveal(all_behind);
    let os2 = os.push(e);
    assert forall|i: int| 0 <= i < os2.len() implies d < (#[trigger] os2[i]).cost || (d == os2[i].cost
        && os2[i].g < d - lv + 1) by {
        if i < os.len() {
            assert(os2[i] == os[i]);
        }
    }
}

} // verus!

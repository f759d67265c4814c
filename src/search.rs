//! Best-first (A*) search between two grid cells, and the walk back along
//! the predecessor table that turns its outcome into a route.
use crate::frontier::{
    all_behind, first_of_rank, lemma_push_behind, lemma_push_first, lemma_push_keeps_first, outranks,
    best_entry, FrontierEntry,
};
use crate::grid::{
    adjacent, cell_key, get_neighbors, is_shortest_route, is_walk, is_walk_between, key_of,
    lemma_cell_key_injective, lemma_route_cell, lemma_walk_no_shorter,
    manhattan, manhattan_distance, route_cell, step_towards, x_first_route, GridCell,
};
use std::collections::HashMap;
use vstd::prelude::*;

verus! {

/// The g-score table records a cost for `c`.
pub open spec fn known(gs: Map<u64, u64>, c: GridCell) -> bool {
    gs.contains_key(cell_key(c))
}

/// The recorded cost of `c`.
pub open spec fn cost_of(gs: Map<u64, u64>, c: GridCell) -> int {
    gs[cell_key(c)] as int
}

/// The predecessor table leads every discovered cell back towards `start`:
/// `start` costs 0 and has no predecessor, and any other discovered cell has
/// a discovered, adjacent predecessor of strictly smaller cost.
#[verifier::opaque]
pub open spec fn links_descend(gs: Map<u64, u64>, cf: Map<u64, GridCell>, start: GridCell) -> bool {
    &&& known(gs, start)
    &&& cost_of(gs, start) == 0
    &&& !cf.contains_key(cell_key(start))
    &&& forall|c: GridCell|
        #[trigger] gs.contains_key(cell_key(c)) && c != start ==> {
            &&& cf.contains_key(cell_key(c))
            &&& adjacent(cf[cell_key(c)], c)
            &&& known(gs, cf[cell_key(c)])
            &&& cost_of(gs, cf[cell_key(c)]) < cost_of(gs, c)
        }
}

/// Walks the predecessor links from `goal` back to the cell that has none,
/// then returns the cells in start-to-goal order.
fn reconstruct_path(
    came_from: HashMap<u64, GridCell>,
    goal: GridCell,
    Ghost(gs): Ghost<Map<u64, u64>>,
    Ghost(start): Ghost<GridCell>,
) -> (r: Vec<GridCell>)
    requires
        links_descend(gs, came_from@, start),
        known(gs, goal),
    ensures
        is_walk_between(r@, start, goal),
        r@.len() <= cost_of(gs, goal) + 1,
        forall|i: int|
            1 <= i < r@.len() ==> came_from@.contains_key(cell_key(#[trigger] r@[i]))
                && came_from@[cell_key(r@[i])] == r@[i - 1],
{
    reveal(links_descend);
    let mut current = goal;
    let mut back: Vec<GridCell> = vec![goal];
    loop
        invariant
            links_descend(gs, came_from@, start),
            known(gs, current),
            back@.len() > 0,
            back@[0] == goal,
            back@.last() == current,
            is_walk(back@),
            back@.len() + cost_of(gs, current) <= cost_of(gs, goal) + 1,
            forall|j: int|
                0 <= j < back@.len() - 1 ==> came_from@.contains_key(cell_key(#[trigger] back@[j]))
                    && came_from@[cell_key(back@[j])] == back@[j + 1],
        ensures
            forall|j: int|
                0 <= j < back@.len() - 1 ==> came_from@.contains_key(cell_key(#[trigger] back@[j]))
                    && came_from@[cell_key(back@[j])] == back@[j + 1],
            is_walk(back@),
            back@.len() > 0,
            back@[0] == goal,
            back@.last() == start,
            back@.len() <= cost_of(gs, goal) + 1,
        decreases cost_of(gs, current),
    {
        let k = key_of(current);
        proof {
            reveal(links_descend);
        }
        match came_from.get(&k) {
            Some(prev) => {
                let prev = *prev;
                proof {
                    assert(gs.contains_key(cell_key(current)));
                    lemma_cell_key_injective(current, start);
                    let old_back = back@;
                    assert(old_back.push(prev)[old_back.len() as int] == prev);
                }
                back.push(prev);
                current = prev;
            },
            None => {
                assert(gs.contains_key(cell_key(current)));
                break;
            },
        }
    }
    let n = back.len();
    let mut r: Vec<GridCell> = Vec::new();
    let mut i: usize = n;
    while i > 0
        invariant
            i <= n,
            n == back@.len(),
            r@.len() == n - i,
            forall|j: int| 0 <= j < r@.len() ==> r@[j] == #[trigger] back@[n - 1 - j],
        decreases i,
    {
        i = i - 1;
        r.push(back[i]);
    }
    assert forall|j: int| 0 <= j < r@.len() - 1 implies #[trigger] adjacent(r@[j], r@[j + 1]) by {
        let t = n - 2 - j;
        assert(adjacent(back@[t], back@[t + 1]));
        assert(r@[j] == back@[n - 1 - j]);
        assert(r@[j + 1] == back@[n - 1 - (j + 1)]);
    }
    assert forall|i: int|
        1 <= i < r@.len() implies came_from@.contains_key(cell_key(#[trigger] r@[i]))
            && came_from@[cell_key(r@[i])] == r@[i - 1] by {
        let t = n - 1 - i;
        assert(r@[i] == back@[t]);
        assert(r@[i - 1] == back@[n - 1 - (i - 1)]);
    }
    assert(r@[0] == back@[n - 1 - 0]);
    assert(r@[n - 1] == back@[n - 1 - (n - 1)]);
    r
}

/// A frontier entry agrees with the g-score table: its cell is discovered at
/// a cost no worse than the entry's, and its estimate is `g + h`.
pub open spec fn entry_sound(gs: Map<u64, u64>, e: FrontierEntry, goal: GridCell, d: int) -> bool {
    &&& known(gs, e.cell)
    &&& e.g >= cost_of(gs, e.cell)
    &&& e.cost == e.g + manhattan(e.cell, goal)
    &&& e.g <= d
}

/// Every discovered cell costs at least its distance from `start`, and no
/// more than `d`.
#[verifier::opaque]
pub open spec fn costs_bounded(gs: Map<u64, u64>, start: GridCell, d: int) -> bool {
    forall|c: GridCell| #[trigger]
        gs.contains_key(cell_key(c)) ==> manhattan(start, c) <= cost_of(gs, c) <= d
}

/// No discovered cell nearer to `goal` than `lv` lies, at its recorded cost,
/// on a route of `d` steps.
#[verifier::opaque]
pub open spec fn costly_below(gs: Map<u64, u64>, goal: GridCell, d: int, lv: int) -> bool {
    forall|c: GridCell| #[trigger]
        gs.contains_key(cell_key(c)) && manhattan(c, goal) < lv ==> cost_of(gs, c) + manhattan(
            c,
            goal,
        ) > d
}

/// Every frontier entry agrees with the g-score table.
#[verifier::opaque]
pub open spec fn frontier_sound(gs: Map<u64, u64>, os: Seq<FrontierEntry>, goal: GridCell, d: int) -> bool {
    forall|i: int| 0 <= i < os.len() ==> entry_sound(gs, #[trigger] os[i], goal, d)
}

/// Entry `w` of the frontier lies on a route of `d` steps, `lv` steps short
/// of `goal`.
pub open spec fn level_entry(os: Seq<FrontierEntry>, w: int, goal: GridCell, d: int, lv: int) -> bool {
    &&& 0 <= w < os.len()
    &&& os[w].g + lv == d
    &&& manhattan(os[w].cell, goal) == lv
}

/// Recording `nb` as reached from `cur` one step after it, at a count that
/// beats what was known, keeps every table invariant, and leaves every other
/// cell's record alone.
proof fn lemma_relax(
    gs: Map<u64, u64>,
    cf: Map<u64, GridCell>,
    os: Seq<FrontierEntry>,
    start: GridCell,
    goal: GridCell,
    d: int,
    lv: int,
    cur: GridCell,
    nb: GridCell,
    t: u64,
)
    requires
        links_descend(gs, cf, start),
        costs_bounded(gs, start, d),
        costly_below(gs, goal, d, lv),
        frontier_sound(gs, os, goal, d),
        known(gs, cur),
        adjacent(cur, nb),
        t == cost_of(gs, cur) + 1,
        t <= d,
        known(gs, nb) ==> t < cost_of(gs, nb),
        manhattan(nb, goal) >= lv,
        t + manhattan(nb, goal) <= u64::MAX,
    ensures
        ({
            let gs2 = gs.insert(cell_key(nb), t);
            let cf2 = cf.insert(cell_key(nb), cur);
            let os2 = os.push(
                FrontierEntry { cell: nb, g: t, cost: (t + manhattan(nb, goal)) as u64 },
            );
            &&& links_descend(gs2, cf2, start)
            &&& costs_bounded(gs2, start, d)
            &&& costly_below(gs2, goal, d, lv)
            &&& frontier_sound(gs2, os2, goal, d)
            &&& known(gs2, nb)
            &&& cost_of(gs2, nb) == t
            &&& forall|c: GridCell|
                c != nb ==> (known(gs2, c) == known(gs, c) && (known(gs, c) ==> #[trigger] cost_of(
                    gs2,
                    c,
                ) == cost_of(gs, c)))
        }),
{
    lemma_relax_links(gs, cf, start, cur, nb, t);
    lemma_relax_costs(gs, start, goal, d, lv, cur, nb, t);
    lemma_relax_frontier(gs, os, goal, d, nb, t);
    let gs2 = gs.insert(cell_key(nb), t);
    assert forall|c: GridCell| c != nb implies (known(gs2, c) == known(gs, c) && (known(gs, c)
        ==> #[trigger] cost_of(gs2, c) == cost_of(gs, c))) by {
        lemma_cell_key_injective(c, nb);
    }
}

proof fn lemma_relax_links(
    gs: Map<u64, u64>,
    cf: Map<u64, GridCell>,
    start: GridCell,
    cur: GridCell,
    nb: GridCell,
    t: u64,
)
    requires
        links_descend(gs, cf, start),
        known(gs, cur),
        adjacent(cur, nb),
        t == cost_of(gs, cur) + 1,
        known(gs, nb) ==> t < cost_of(gs, nb),
    ensures
        links_descend(gs.insert(cell_key(nb), t), cf.insert(cell_key(nb), cur), start),
{
    reveal(links_descend);
    let gs2 = gs.insert(cell_key(nb), t);
    let cf2 = cf.insert(cell_key(nb), cur);
    lemma_cell_key_injective(nb, start);
    lemma_cell_key_injective(nb, cur);
    assert forall|c: GridCell| #[trigger] gs2.contains_key(cell_key(c)) && c != start implies {
        &&& cf2.contains_key(cell_key(c))
        &&& adjacent(cf2[cell_key(c)], c)
        &&& known(gs2, cf2[cell_key(c)])
        &&& cost_of(gs2, cf2[cell_key(c)]) < cost_of(gs2, c)
    } by {
        lemma_cell_key_injective(c, nb);
        if c != nb {
            assert(gs.contains_key(cell_key(c)));
            lemma_cell_key_injective(cf[cell_key(c)], nb);
        }
    }
}

proof fn lemma_relax_costs(
    gs: Map<u64, u64>,
    start: GridCell,
    goal: GridCell,
    d: int,
    lv: int,
    cur: GridCell,
    nb: GridCell,
    t: u64,
)
    requires
        costs_bounded(gs, start, d),
        costly_below(gs, goal, d, lv),
        known(gs, cur),
        adjacent(cur, nb),
        t == cost_of(gs, cur) + 1,
        t <= d,
        manhattan(nb, goal) >= lv,
    ensures
        costs_bounded(gs.insert(cell_key(nb), t), start, d),
        costly_below(gs.insert(cell_key(nb), t), goal, d, lv),
{
    reveal(costs_bounded);
    reveal(costly_below);
    let gs2 = gs.insert(cell_key(nb), t);
    assert(gs.contains_key(cell_key(cur)));
    assert forall|c: GridCell| #[trigger] gs2.contains_key(cell_key(c)) implies manhattan(start, c)
        <= cost_of(gs2, c) <= d && (manhattan(c, goal) < lv ==> cost_of(gs2, c) + manhattan(c, goal)
        > d) by {
        lemma_cell_key_injective(c, nb);
        if c != nb {
            assert(gs.contains_key(cell_key(c)));
        }
    }
}

proof fn lemma_relax_frontier(
    gs: Map<u64, u64>,
    os: Seq<FrontierEntry>,
    goal: GridCell,
    d: int,
    nb: GridCell,
    t: u64,
)
    requires
        frontier_sound(gs, os, goal, d),
        t <= d,
        t + manhattan(nb, goal) <= u64::MAX,
        known(gs, nb) ==> t < cost_of(gs, nb),
    ensures
        frontier_sound(
            gs.insert(cell_key(nb), t),
            os.push(FrontierEntry { cell: nb, g: t, cost: (t + manhattan(nb, goal)) as u64 }),
            goal,
            d,
        ),
{
    reveal(frontier_sound);
    let gs2 = gs.insert(cell_key(nb), t);
    let os2 = os.push(FrontierEntry { cell: nb, g: t, cost: (t + manhattan(nb, goal)) as u64 });
    assert forall|i: int| 0 <= i < os2.len() implies entry_sound(gs2, #[trigger] os2[i], goal, d) by {
        if i < os.len() {
            assert(entry_sound(gs, os[i], goal, d));
            lemma_cell_key_injective(os[i].cell, nb);
        }
    }
}

/// The entry that the search takes next lies on a route of `d` steps, at
/// the level of the witness, and is not stale.
proof fn lemma_pick_on_level(
    gs: Map<u64, u64>,
    os: Seq<FrontierEntry>,
    start: GridCell,
    goal: GridCell,
    d: int,
    lv: int,
    w: int,
    idx: int,
)
    requires
        d == manhattan(start, goal),
        costs_bounded(gs, start, d),
        costly_below(gs, goal, d, lv),
        frontier_sound(gs, os, goal, d),
        level_entry(os, w, goal, d, lv),
        0 <= idx < os.len(),
        !outranks(os[w], os[idx]),
    ensures
        os[idx].cost == d,
        os[w].cost == d,
        manhattan(os[idx].cell, goal) == lv,
        known(gs, os[idx].cell),
        cost_of(gs, os[idx].cell) == os[idx].g,
        os[idx].g + lv == d,
{
    reveal(costs_bounded);
    reveal(costly_below);
    reveal(frontier_sound);
    assert(entry_sound(gs, os[idx], goal, d));
    assert(entry_sound(gs, os[w], goal, d));
    assert(gs.contains_key(cell_key(os[idx].cell)));
}

/// Taking an entry out of the frontier keeps the rest in agreement with the
/// g-score table.
proof fn lemma_remove_keeps_sound(gs: Map<u64, u64>, os: Seq<FrontierEntry>, goal: GridCell, d: int, idx: int)
    requires
        frontier_sound(gs, os, goal, d),
        0 <= idx < os.len(),
    ensures
        frontier_sound(gs, os.remove(idx), goal, d),
{
    reveal(frontier_sound);
    let os2 = os.remove(idx);
    assert forall|i: int| 0 <= i < os2.len() implies entry_sound(gs, #[trigger] os2[i], goal, d) by {
        if i < idx {
            assert(os2[i] == os[i]);
        } else {
            assert(os2[i] == os[i + 1]);
        }
    }
}

/// The first `n + 1` cells of the x-first route from `start` to `goal` are
/// discovered at their distance from `start`, each after the first with the
/// previous route cell as its predecessor.
#[verifier::opaque]
pub open spec fn chain_to(
    gs: Map<u64, u64>,
    cf: Map<u64, GridCell>,
    start: GridCell,
    goal: GridCell,
    n: int,
) -> bool {
    forall|k: int|
        0 <= k <= n ==> {
            &&& known(gs, #[trigger] route_cell(start, goal, k))
            &&& cost_of(gs, route_cell(start, goal, k)) == k
            &&& (k >= 1 ==> cf.contains_key(cell_key(route_cell(start, goal, k))) && cf[cell_key(
                route_cell(start, goal, k),
            )] == route_cell(start, goal, k - 1))
        }
}

/// Recording a cell off the discovered part of the route keeps that part,
/// and recording the next route cell from the last one extends it.
proof fn lemma_relax_chain(
    gs: Map<u64, u64>,
    cf: Map<u64, GridCell>,
    start: GridCell,
    goal: GridCell,
    n: int,
    cur: GridCell,
    nb: GridCell,
    t: u64,
)
    requires
        chain_to(gs, cf, start, goal, n),
        0 <= n <= manhattan(start, goal),
        t >= n,
        known(gs, nb) ==> t < cost_of(gs, nb),
    ensures
        chain_to(gs.insert(cell_key(nb), t), cf.insert(cell_key(nb), cur), start, goal, n),
        n < manhattan(start, goal) && nb == route_cell(start, goal, n + 1) && cur == route_cell(
            start,
            goal,
            n,
        ) && t == n + 1 ==> chain_to(gs.insert(cell_key(nb), t), cf.insert(cell_key(nb), cur), start, goal, n + 1),
{
    reveal(chain_to);
    let gs2 = gs.insert(cell_key(nb), t);
    let cf2 = cf.insert(cell_key(nb), cur);
    assert forall|k: int| 0 <= k <= n implies {
        &&& known(gs2, #[trigger] route_cell(start, goal, k))
        &&& cost_of(gs2, route_cell(start, goal, k)) == k
        &&& (k >= 1 ==> cf2.contains_key(cell_key(route_cell(start, goal, k))) && cf2[cell_key(
            route_cell(start, goal, k),
        )] == route_cell(start, goal, k - 1))
    } by {
        let c = route_cell(start, goal, k);
        lemma_cell_key_injective(c, nb);
    }
}

/// Before an expansion at level `lv`, every entry of the frontier is served
/// after the entries that the expansion will add one level further on.
proof fn lemma_frontier_behind(
    gs: Map<u64, u64>,
    os: Seq<FrontierEntry>,
    start: GridCell,
    goal: GridCell,
    d: int,
    lv: int,
)
    requires
        d == manhattan(start, goal),
        costs_bounded(gs, start, d),
        costly_below(gs, goal, d, lv),
        frontier_sound(gs, os, goal, d),
    ensures
        all_behind(os, d, lv),
{
    reveal(all_behind);
    reveal(costs_bounded);
    reveal(costly_below);
    reveal(frontier_sound);
    assert forall|i: int| 0 <= i < os.len() implies d < (#[trigger] os[i]).cost || (d == os[i].cost
        && os[i].g < d - lv + 1) by {
        assert(entry_sound(gs, os[i], goal, d));
        assert(gs.contains_key(cell_key(os[i].cell)));
    }
}

/// A predecessor chain that ends at `goal`, laid over the discovered part
/// of the x-first route, is that route.
proof fn lemma_chain_is_route(
    r: Seq<GridCell>,
    gs: Map<u64, u64>,
    cf: Map<u64, GridCell>,
    start: GridCell,
    goal: GridCell,
    i: int,
)
    requires
        r.len() == manhattan(start, goal) + 1,
        r.last() == goal,
        chain_to(gs, cf, start, goal, manhattan(start, goal) as int),
        forall|j: int|
            1 <= j < r.len() ==> cf.contains_key(cell_key(#[trigger] r[j])) && cf[cell_key(r[j])]
                == r[j - 1],
        0 <= i < r.len(),
    ensures
        r[i] == route_cell(start, goal, i),
    decreases r.len() - i,
{
    reveal(chain_to);
    let d = manhattan(start, goal) as int;
    if i == d {
        lemma_route_cell(start, goal, d);
    } else {
        lemma_chain_is_route(r, gs, cf, start, goal, i + 1);
        assert(route_cell(start, goal, i + 1) == r[i + 1]);
    }
}

/// Expands a frontier entry that lies `level` steps short of `goal` on a
/// route of `d` steps: each neighbour reached more cheaply than before is
/// given `current` as predecessor, its new step count, and a new frontier
/// entry. Afterwards some frontier entry lies one level further on.
#[verifier::rlimit(50)]
fn expand(
    current: FrontierEntry,
    goal: GridCell,
    d: u64,
    Ghost(start): Ghost<GridCell>,
    Ghost(level): Ghost<int>,
    open_set: &mut Vec<FrontierEntry>,
    came_from: &mut HashMap<u64, GridCell>,
    g_score: &mut HashMap<u64, u64>,
)
    requires
        d == manhattan(start, goal),
        1 <= level <= d,
        manhattan(current.cell, goal) == level,
        current.g + level == d,
        known(old(g_score)@, current.cell),
        cost_of(old(g_score)@, current.cell) == current.g,
        links_descend(old(g_score)@, old(came_from)@, start),
        costs_bounded(old(g_score)@, start, d as int),
        costly_below(old(g_score)@, goal, d as int, level),
        frontier_sound(old(g_score)@, old(open_set)@, goal, d as int),
        current.cell == route_cell(start, goal, d - level),
        chain_to(old(g_score)@, old(came_from)@, start, goal, d - level),
    ensures
        links_descend(final(g_score)@, final(came_from)@, start),
        costs_bounded(final(g_score)@, start, d as int),
        costly_below(final(g_score)@, goal, d as int, level - 1),
        frontier_sound(final(g_score)@, final(open_set)@, goal, d as int),
        chain_to(final(g_score)@, final(came_from)@, start, goal, d - level + 1),
        exists|w: int|
            #[trigger] level_entry(final(open_set)@, w, goal, d as int, level - 1)
                && final(open_set)@[w].cell == route_cell(start, goal, d - level + 1)
                && first_of_rank(final(open_set)@, w),
{
    let neighbors = get_neighbors(current.cell);
    let tentative: u64 = current.g + 1;
    let ghost mut next_wit: int = -1;
    let ghost sw = route_cell(start, goal, d - level + 1);
    proof {
        reveal(costly_below);
        lemma_frontier_behind(g_score@, open_set@, start, goal, d as int, level);
        lemma_route_cell(start, goal, d - level);
        lemma_route_cell(start, goal, d - level + 1);
    }
    let mut j: usize = 0;
    while j < neighbors.len()
        invariant
            d == manhattan(start, goal),
            1 <= level <= d,
            manhattan(current.cell, goal) == level,
            current.g + level == d,
            tentative == current.g + 1,
            known(g_score@, current.cell),
            cost_of(g_score@, current.cell) == current.g,
            j <= neighbors@.len(),
            neighbors@.len() <= 4,
            forall|i: int| 0 <= i < neighbors@.len() ==> #[trigger] adjacent(current.cell, neighbors@[i]),
            forall|a: int, b: int| 0 <= a < b < neighbors@.len() ==> neighbors@[a] != neighbors@[b],
            forall|a: int, b: int|
                0 <= a < b < neighbors@.len() ==> !(neighbors@[a].x == current.cell.x
                    && neighbors@[b].x != current.cell.x),
            neighbors@.contains(sw),
            sw == route_cell(start, goal, d - level + 1),
            sw == step_towards(current.cell, goal),
            adjacent(current.cell, sw),
            manhattan(sw, goal) == level - 1,
            current.cell == route_cell(start, goal, d - level),
            chain_to(g_score@, came_from@, start, goal, d - level),
            next_wit >= 0 ==> {
                &&& open_set@[next_wit].cell == sw
                &&& first_of_rank(open_set@, next_wit)
                &&& chain_to(g_score@, came_from@, start, goal, d - level + 1)
            },
            next_wit < 0 ==> all_behind(open_set@, d as int, level),
            links_descend(g_score@, came_from@, start),
            costs_bounded(g_score@, start, d as int),
            costly_below(g_score@, goal, d as int, level - 1),
            frontier_sound(g_score@, open_set@, goal, d as int),
            forall|jj: int|
                j <= jj < neighbors@.len() && known(g_score@, #[trigger] neighbors@[jj])
                    && manhattan(neighbors@[jj], goal) < level ==> cost_of(g_score@, neighbors@[jj])
                    + manhattan(neighbors@[jj], goal) > d,
            next_wit >= 0 ==> level_entry(open_set@, next_wit, goal, d as int, level - 1),
            next_wit < 0 ==> forall|jj: int|
                0 <= jj < j ==> manhattan(#[trigger] neighbors@[jj], goal) != level - 1,
        decreases neighbors@.len() - j,
    {
        let nb = neighbors[j];
        let nk = key_of(nb);
        let better = match g_score.get(&nk) {
            Some(old_g) => tentative < *old_g,
            None => true,
        };
        proof {
            assert(adjacent(current.cell, neighbors@[j as int]));
            lemma_cell_key_injective(nb, current.cell);
            lemma_cell_key_injective(nb, start);
            if known(g_score@, nb) && manhattan(nb, goal) == level - 1 {
                assert(cost_of(g_score@, nb) + manhattan(nb, goal) > d);
            }
        }
        if better {
            let ghost gs0 = g_score@;
            let ghost cf0 = came_from@;
            let ghost os0 = open_set@;
            proof {
                lemma_relax(gs0, cf0, os0, start, goal, d as int, level - 1, current.cell, nb, tentative);
                if next_wit < 0 && manhattan(nb, goal) == level - 1 {
                    if nb != sw {
                        let js = neighbors@.index_of(sw);
                        assert(neighbors@[js] == sw);
                        assert(js < j);
                    }
                }
                lemma_relax_chain(gs0, cf0, start, goal, d - level, current.cell, nb, tentative);
                if next_wit >= 0 {
                    lemma_relax_chain(gs0, cf0, start, goal, d - level + 1, current.cell, nb, tentative);
                }
            }
            came_from.insert(nk, current.cell);
            g_score.insert(nk, tentative);
            let h = manhattan_distance(nb, goal);
            open_set.push(FrontierEntry { cell: nb, g: tentative, cost: tentative + h });
            proof {
                assert(open_set@ == os0.push(
                    FrontierEntry { cell: nb, g: tentative, cost: (tentative + manhattan(nb, goal)) as u64 },
                ));
                assert forall|jj: int|
                    j + 1 <= jj < neighbors@.len() && known(g_score@, #[trigger] neighbors@[jj])
                        && manhattan(neighbors@[jj], goal) < level implies cost_of(g_score@, neighbors@[jj])
                        + manhattan(neighbors@[jj], goal) > d by {
                    assert(neighbors@[j as int] != neighbors@[jj]);
                    assert(known(gs0, neighbors@[jj]));
                }
                let e = open_set@.last();
                if next_wit < 0 && manhattan(nb, goal) == level - 1 {
                    lemma_push_first(os0, e, d as int, level);
                    next_wit = os0.len() as int;
                } else if next_wit >= 0 {
                    lemma_push_keeps_first(os0, e, next_wit);
                } else {
                    lemma_push_behind(os0, e, d as int, level);
                }
            }
        }
        j = j + 1;
    }
    proof {
        let jj = neighbors@.index_of(sw);
        assert(neighbors@[jj] == sw);
        assert(next_wit >= 0);
        assert(level_entry(open_set@, next_wit, goal, d as int, level - 1));
    }
}

/// Finds a route from `start` to `goal` over the unobstructed 4-connected
/// grid with the fewest unit steps, by best-first search on
/// `f = g + h` with the Manhattan distance as `h`. Frontier entries whose
/// recorded step count has since been beaten are skipped when they come up.
/// Ties on `f` go to the entry with the larger `g`, then to the one
/// inserted first; with neighbours taken in the order +x, -x, +y, -y, the
/// route found is the one that closes the x gap first. It depends on the two
/// cells alone: every table the search uses is created by the call.
pub fn a_star(start: GridCell, goal: GridCell) -> (r: Vec<GridCell>)
    ensures
        r@ == x_first_route(start, goal),
        is_shortest_route(r@, start, goal),
        start == goal ==> r@ == seq![start],
{
    let d: u64 = manhattan_distance(start, goal);
    let mut open_set: Vec<FrontierEntry> = Vec::new();
    let mut came_from: HashMap<u64, GridCell> = HashMap::new();
    let mut g_score: HashMap<u64, u64> = HashMap::new();
    g_score.insert(key_of(start), 0);
    open_set.push(FrontierEntry { cell: start, g: 0, cost: d });
    let ghost mut level: int = d as int;
    let ghost mut wit: int = 0;
    proof {
        reveal(links_descend);
        reveal(costs_bounded);
        reveal(costly_below);
        reveal(frontier_sound);
        reveal(chain_to);
        reveal(first_of_rank);
        assert forall|c: GridCell| #[trigger] g_score@.contains_key(cell_key(c)) implies c == start by {
            lemma_cell_key_injective(c, start);
        }
        assert(open_set@[0].cell == start);
        lemma_route_cell(start, goal, 0);
        assert(route_cell(start, goal, 0) == start);
    }
    while open_set.len() > 0
        invariant
            d == manhattan(start, goal),
            0 <= level <= d,
            links_descend(g_score@, came_from@, start),
            costs_bounded(g_score@, start, d as int),
            costly_below(g_score@, goal, d as int, level),
            frontier_sound(g_score@, open_set@, goal, d as int),
            level_entry(open_set@, wit, goal, d as int, level),
            open_set@[wit].cell == route_cell(start, goal, d - level),
            first_of_rank(open_set@, wit),
            chain_to(g_score@, came_from@, start, goal, d - level),
        decreases level,
    {
        let idx = best_entry(&open_set);
        let ghost pre = open_set@;
        proof {
            lemma_pick_on_level(g_score@, pre, start, goal, d as int, level, wit, idx as int);
            reveal(first_of_rank);
            if idx < wit {
                assert(outranks(pre[wit], pre[idx as int]));
            } else if idx > wit {
                assert(outranks(pre[idx as int], pre[wit]));
            }
            assert(idx == wit);
        }
        let current = open_set.remove(idx);
        proof {
            lemma_remove_keeps_sound(g_score@, pre, goal, d as int, idx as int);
        }
        let k = key_of(current.cell);
        let stale = match g_score.get(&k) {
            Some(best) => current.g > *best,
            None => true,
        };
        if stale {
            continue;
        }
        if current.cell == goal {
            let r = reconstruct_path(came_from, goal, Ghost(g_score@), Ghost(start));
            proof {
                lemma_walk_no_shorter(r@, start, goal);
                assert forall|i: int| 0 <= i < r@.len() implies r@[i] == x_first_route(start, goal)[i] by {
                    lemma_chain_is_route(r@, g_score@, came_from@, start, goal, i);
                }
                assert(r@ =~= x_first_route(start, goal));
                if start == goal {
                    assert(r@ =~= seq![start]);
                }
            }
            return r;
        }
        expand(
            current,
            goal,
            d,
            Ghost(start),
            Ghost(level),
            &mut open_set,
            &mut came_from,
            &mut g_score,
        );
        proof {
            let w = choose|w: int|
                #[trigger] level_entry(open_set@, w, goal, d as int, level - 1)
                    && open_set@[w].cell == route_cell(start, goal, d - level + 1)
                    && first_of_rank(open_set@, w);
            level = level - 1;
            wit = w;
        }
    }
    // Not reached: until the goal is taken, the frontier holds an entry on a
    // shortest route.
    Vec::new()
}

/// The route that the search returns cannot be beaten: every walk of unit
/// steps from `a` to `b` visits at least as many cells.
pub proof fn lemma_search_route_optimal(p: Seq<GridCell>, a: GridCell, b: GridCell)
    requires
        is_walk_between(p, a, b),
    ensures
        p.len() >= x_first_route(a, b).len(),
{
    lemma_walk_no_shorter(p, a, b);
}

} // verus!

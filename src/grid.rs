//! Grid cells, unit steps between them, and the Manhattan metric.
use vstd::prelude::*;

verus! {

/// One cell of the integer grid: `x` runs with longitude, `y` with latitude.
#[derive(Clone, Copy, Debug, PartialEq, Eq, Structural, Hash)]
pub struct GridCell {
    pub x: i32,
    pub y: i32,
}

pub open spec fn gap(a: int, b: int) -> nat {
    if a >= b {
        (a - b) as nat
    } else {
        (b - a) as nat
    }
}

/// Manhattan distance `|dx| + |dy|` between two cells.
pub open spec fn manhattan(a: GridCell, b: GridCell) -> nat {
    gap(a.x as int, b.x as int) + gap(a.y as int, b.y as int)
}

/// `a` and `b` differ by exactly one unit step along exactly one axis.
pub open spec fn adjacent(a: GridCell, b: GridCell) -> bool {
    manhattan(a, b) == 1
}

/// Each consecutive pair of cells in `p` is one unit step apart.
pub open spec fn is_walk(p: Seq<GridCell>) -> bool {
    forall|i: int| 0 <= i < p.len() - 1 ==> #[trigger] adjacent(p[i], p[i + 1])
}

/// `p` is a walk of unit steps that starts at `a` and ends at `b`.
pub open spec fn is_walk_between(p: Seq<GridCell>, a: GridCell, b: GridCell) -> bool {
    &&& p.len() > 0
    &&& p[0] == a
    &&& p.last() == b
    &&& is_walk(p)
}

/// `p` is a walk from `a` to `b` with the fewest cells possible:
/// `|dx| + |dy| + 1` of them.
pub open spec fn is_shortest_route(p: Seq<GridCell>, a: GridCell, b: GridCell) -> bool {
    is_walk_between(p, a, b) && p.len() == manhattan(a, b) + 1
}

/// Cell `k` of the route from `a` to `b` that first closes the x gap, then
/// the y gap, one unit step at a time.
pub open spec fn route_cell(a: GridCell, b: GridCell, k: int) -> GridCell {
    let dx = gap(a.x as int, b.x as int) as int;
    if k <= dx {
        GridCell { x: (if a.x <= b.x { a.x + k } else { a.x - k }) as i32, y: a.y }
    } else {
        GridCell {
            x: b.x,
            y: (if a.y <= b.y { a.y + (k - dx) } else { a.y - (k - dx) }) as i32,
        }
    }
}

/// The whole x-first route from `a` to `b`: `|dx| + |dy| + 1` cells.
pub open spec fn x_first_route(a: GridCell, b: GridCell) -> Seq<GridCell> {
    Seq::new(manhattan(a, b) + 1, |k: int| route_cell(a, b, k))
}

/// The neighbour of `c` one step closer to `goal`, stepping along x first.
pub open spec fn step_towards(c: GridCell, goal: GridCell) -> GridCell {
    if c.x < goal.x {
        GridCell { x: (c.x + 1) as i32, y: c.y }
    } else if c.x > goal.x {
        GridCell { x: (c.x - 1) as i32, y: c.y }
    } else if c.y < goal.y {
        GridCell { x: c.x, y: (c.y + 1) as i32 }
    } else {
        GridCell { x: c.x, y: (c.y - 1) as i32 }
    }
}

/// The position of a cell in a row-major numbering of the whole `i32` grid.
pub open spec fn key_int(c: GridCell) -> int {
    (c.x as int + 0x8000_0000) * 0x1_0000_0000 + (c.y as int + 0x8000_0000)
}

/// The number under which the search tables file a cell.
pub open spec fn cell_key(c: GridCell) -> u64 {
    key_int(c) as u64
}

/// Manhattan distance between two cells, computed without overflow.
pub fn manhattan_distance(a: GridCell, b: GridCell) -> (r: u64)
    ensures
        r == manhattan(a, b),
{
    let dx: i64 = a.x as i64 - b.x as i64;
    let dy: i64 = a.y as i64 - b.y as i64;
    let ax: u64 = if dx >= 0 { dx as u64 } else { (-dx) as u64 };
    let ay: u64 = if dy >= 0 { dy as u64 } else { (-dy) as u64 };
    ax + ay
}

/// The in-grid cells one unit step from `pos`, in the order +x, -x, +y, -y.
/// A step that would leave the `i32` range is left out.
pub fn get_neighbors(pos: GridCell) -> (r: Vec<GridCell>)
    ensures
        r@.len() <= 4,
        forall|i: int| 0 <= i < r@.len() ==> #[trigger] adjacent(pos, r@[i]),
        forall|n: GridCell| #[trigger] adjacent(pos, n) ==> r@.contains(n),
        forall|i: int, j: int| 0 <= i < j < r@.len() ==> r@[i] != r@[j],
        forall|i: int, j: int|
            0 <= i < j < r@.len() ==> !(r@[i].x == pos.x && r@[j].x != pos.x),
{
    let mut r: Vec<GridCell> = Vec::new();
    if pos.x < i32::MAX {
        r.push(GridCell { x: pos.x + 1, y: pos.y });
    }
    if pos.x > i32::MIN {
        r.push(GridCell { x: pos.x - 1, y: pos.y });
    }
    if pos.y < i32::MAX {
        r.push(GridCell { x: pos.x, y: pos.y + 1 });
    }
    if pos.y > i32::MIN {
        r.push(GridCell { x: pos.x, y: pos.y - 1 });
    }
    assert forall|n: GridCell| #[trigger] adjacent(pos, n) implies r@.contains(n) by {
        if n.x as int == pos.x + 1 {
            assert(r@[0] == n);
        } else if n.x as int == pos.x - 1 {
            let k: int = if pos.x < i32::MAX { 1 } else { 0 };
            assert(r@[k] == n);
        } else if n.y as int == pos.y + 1 {
            let k: int = (if pos.x < i32::MAX { 1int } else { 0int }) + (if pos.x > i32::MIN {
                1int
            } else {
                0int
            });
            assert(r@[k] == n);
        } else {
            let k: int = (if pos.x < i32::MAX { 1int } else { 0int }) + (if pos.x > i32::MIN {
                1int
            } else {
                0int
            }) + (if pos.y < i32::MAX { 1int } else { 0int });
            assert(r@[k] == n);
        }
    }
    r
}

/// The filing number of a cell: distinct cells get distinct numbers.
pub fn key_of(c: GridCell) -> (r: u64)
    ensures
        r == cell_key(c),
        r as int == key_int(c),
{
    let hi: u64 = (c.x as i64 + 0x8000_0000) as u64;
    let lo: u64 = (c.y as i64 + 0x8000_0000) as u64;
    assert(hi * 0x1_0000_0000 + lo <= u64::MAX) by (nonlinear_arith)
        requires
            hi < 0x1_0000_0000,
            lo < 0x1_0000_0000,
    ;
    hi * 0x1_0000_0000 + lo
}

/// Distinct cells are filed under distinct numbers.
pub proof fn lemma_cell_key_injective(a: GridCell, b: GridCell)
    ensures
        cell_key(a) == cell_key(b) <==> a == b,
{
    let ha = a.x as int + 0x8000_0000;
    let la = a.y as int + 0x8000_0000;
    let hb = b.x as int + 0x8000_0000;
    let lb = b.y as int + 0x8000_0000;
    assert(0 <= key_int(a) <= u64::MAX) by (nonlinear_arith)
        requires
            0 <= ha < 0x1_0000_0000,
            0 <= la < 0x1_0000_0000,
            key_int(a) == ha * 0x1_0000_0000 + la,
    ;
    assert(0 <= key_int(b) <= u64::MAX) by (nonlinear_arith)
        requires
            0 <= hb < 0x1_0000_0000,
            0 <= lb < 0x1_0000_0000,
            key_int(b) == hb * 0x1_0000_0000 + lb,
    ;
    if cell_key(a) == cell_key(b) {
        assert(ha == hb && la == lb) by (nonlinear_arith)
            requires
                0 <= la < 0x1_0000_0000,
                0 <= lb < 0x1_0000_0000,
                ha * 0x1_0000_0000 + la == hb * 0x1_0000_0000 + lb,
        ;
    }
}

/// Cell `k` of the x-first route lies `k` steps from `a` and `d - k` from
/// `b`; its successor is the step from it towards `b`.
pub proof fn lemma_route_cell(a: GridCell, b: GridCell, k: int)
    requires
        0 <= k <= manhattan(a, b),
    ensures
        manhattan(a, route_cell(a, b, k)) == k,
        manhattan(route_cell(a, b, k), b) == manhattan(a, b) - k,
        k == 0 ==> route_cell(a, b, k) == a,
        k == manhattan(a, b) ==> route_cell(a, b, k) == b,
        k < manhattan(a, b) ==> step_towards(route_cell(a, b, k), b) == route_cell(a, b, k + 1),
        k < manhattan(a, b) ==> adjacent(route_cell(a, b, k), route_cell(a, b, k + 1)),
{
}

/// The x-first route is a shortest route.
pub proof fn lemma_x_first_route_is_shortest(a: GridCell, b: GridCell)
    ensures
        is_shortest_route(x_first_route(a, b), a, b),
{
    let p = x_first_route(a, b);
    let d = manhattan(a, b) as int;
    lemma_route_cell(a, b, 0);
    lemma_route_cell(a, b, d);
    assert forall|i: int| 0 <= i < p.len() - 1 implies #[trigger] adjacent(p[i], p[i + 1]) by {
        lemma_route_cell(a, b, i);
    }
}

/// Along any walk the distance from the first cell grows by at most one
/// per step.
proof fn lemma_walk_prefix_distance(p: Seq<GridCell>, k: int)
    requires
        is_walk(p),
        0 <= k < p.len(),
    ensures
        manhattan(p[0], p[k]) <= k,
    decreases k,
{
    if k > 0 {
        lemma_walk_prefix_distance(p, k - 1);
        let j = k - 1;
        assert(adjacent(p[j], p[j + 1]));
    }
}

/// No walk between two cells is shorter than their Manhattan distance:
/// every walk from `a` to `b` visits at least `|dx| + |dy| + 1` cells.
pub proof fn lemma_walk_no_shorter(p: Seq<GridCell>, a: GridCell, b: GridCell)
    requires
        is_walk_between(p, a, b),
    ensures
        p.len() >= manhattan(a, b) + 1,
{
    lemma_walk_prefix_distance(p, p.len() - 1);
}

} // verus!

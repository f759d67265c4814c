use grid_route::grid::{get_neighbors, key_of, manhattan_distance, GridCell};
use grid_route::frontier::{best_entry, FrontierEntry};
use grid_route::search::a_star;
use std::collections::{HashMap, VecDeque};

fn cell(x: i32, y: i32) -> GridCell {
    GridCell { x, y }
}

fn is_unit_step(a: GridCell, b: GridCell) -> bool {
    let dx = (a.x as i64 - b.x as i64).abs();
    let dy = (a.y as i64 - b.y as i64).abs();
    dx + dy == 1
}

fn check_route(start: GridCell, goal: GridCell) -> Vec<GridCell> {
    let path = a_star(start, goal);
    let d = (start.x as i64 - goal.x as i64).abs() + (start.y as i64 - goal.y as i64).abs();
    assert_eq!(path.len() as i64, d + 1);
    assert_eq!(path[0], start);
    assert_eq!(*path.last().unwrap(), goal);
    for w in path.windows(2) {
        assert!(is_unit_step(w[0], w[1]));
    }
    path
}

/// Breadth-first search over the window `[lo, hi]^2`, for comparison.
fn bfs_len(start: GridCell, goal: GridCell, lo: i32, hi: i32) -> usize {
    let mut seen: HashMap<(i32, i32), usize> = HashMap::new();
    let mut queue: VecDeque<(i32, i32)> = VecDeque::new();
    seen.insert((start.x, start.y), 1);
    queue.push_back((start.x, start.y));
    while let Some((x, y)) = queue.pop_front() {
        let n = seen[&(x, y)];
        if (x, y) == (goal.x, goal.y) {
            return n;
        }
        for (nx, ny) in [(x + 1, y), (x - 1, y), (x, y + 1), (x, y - 1)] {
            if nx < lo || nx > hi || ny < lo || ny > hi || seen.contains_key(&(nx, ny)) {
                continue;
            }
            seen.insert((nx, ny), n + 1);
            queue.push_back((nx, ny));
        }
    }
    0
}

#[test]
fn same_cell_gives_single_cell_path() {
    for c in [cell(0, 0), cell(-7, 12), cell(i32::MAX, i32::MIN), cell(18000, -9000)] {
        assert_eq!(a_star(c, c), vec![c]);
    }
}

#[test]
fn straight_north_route_has_four_cells() {
    let path = a_star(cell(0, 0), cell(0, 3));
    assert_eq!(path, vec![cell(0, 0), cell(0, 1), cell(0, 2), cell(0, 3)]);
}

#[test]
fn straight_west_route() {
    let path = a_star(cell(2, 5), cell(-1, 5));
    assert_eq!(path, vec![cell(2, 5), cell(1, 5), cell(0, 5), cell(-1, 5)]);
}

#[test]
fn diagonal_goal_closes_x_gap_first() {
    let path = check_route(cell(0, 0), cell(2, -2));
    assert_eq!(path, vec![cell(0, 0), cell(1, 0), cell(2, 0), cell(2, -1), cell(2, -2)]);
}

#[test]
fn south_west_goal_closes_x_gap_first() {
    let path = check_route(cell(3, 1), cell(1, -1));
    assert_eq!(path, vec![cell(3, 1), cell(2, 1), cell(1, 1), cell(1, 0), cell(1, -1)]);
}

#[test]
fn routes_have_manhattan_length_and_unit_steps() {
    let pairs = [
        (cell(0, 0), cell(5, 7)),
        (cell(-3, 4), cell(6, -2)),
        (cell(10, 10), cell(10, -10)),
        (cell(-12, 3), cell(-12, 3)),
        (cell(3, -40), cell(-25, 1)),
    ];
    for (a, b) in pairs {
        check_route(a, b);
    }
}

#[test]
fn routes_at_the_edge_of_the_grid() {
    check_route(cell(i32::MAX - 2, i32::MAX), cell(i32::MAX, i32::MAX - 3));
    check_route(cell(i32::MIN, i32::MIN + 1), cell(i32::MIN + 2, i32::MIN));
}

#[test]
fn routes_match_breadth_first_search_on_small_grid() {
    for sx in -2..=2 {
        for sy in -2..=2 {
            for gx in -2..=2 {
                for gy in -2..=2 {
                    let (a, b) = (cell(sx, sy), cell(gx, gy));
                    let path = check_route(a, b);
                    assert_eq!(path.len(), bfs_len(a, b, -2, 2));
                }
            }
        }
    }
}

#[test]
fn geographic_scale_route() {
    // about 0.3 degrees east and 0.2 degrees north at a scale of 100 per degree
    let path = check_route(cell(-7400, 4071), cell(-7370, 4091));
    assert_eq!(path.len(), 51);
}

#[test]
fn calls_in_any_order_give_the_same_routes() {
    let a = (cell(0, 0), cell(4, 3));
    let b = (cell(-5, 2), cell(1, -6));
    let first_a = a_star(a.0, a.1);
    let first_b = a_star(b.0, b.1);
    let second_b = a_star(b.0, b.1);
    let second_a = a_star(a.0, a.1);
    assert_eq!(first_a, second_a);
    assert_eq!(first_b, second_b);
}

#[test]
fn manhattan_distance_values() {
    assert_eq!(manhattan_distance(cell(0, 0), cell(3, 4)), 7);
    assert_eq!(manhattan_distance(cell(3, 4), cell(0, 0)), 7);
    assert_eq!(manhattan_distance(cell(-2, 5), cell(-2, 5)), 0);
    assert_eq!(
        manhattan_distance(cell(i32::MIN, i32::MIN), cell(i32::MAX, i32::MAX)),
        2 * (u32::MAX as u64)
    );
}

#[test]
fn neighbors_in_fixed_order() {
    assert_eq!(get_neighbors(cell(1, 2)), vec![cell(2, 2), cell(0, 2), cell(1, 3), cell(1, 1)]);
}

#[test]
fn neighbors_stay_inside_the_grid() {
    assert_eq!(get_neighbors(cell(i32::MAX, 0)), vec![cell(i32::MAX - 1, 0), cell(i32::MAX, 1), cell(i32::MAX, -1)]);
    assert_eq!(get_neighbors(cell(i32::MIN, i32::MIN)), vec![cell(i32::MIN + 1, i32::MIN), cell(i32::MIN, i32::MIN + 1)]);
}

#[test]
fn keys_are_distinct() {
    let cells = [cell(0, 0), cell(0, 1), cell(1, 0), cell(-1, 0), cell(0, -1), cell(i32::MIN, i32::MAX), cell(i32::MAX, i32::MIN)];
    for (i, a) in cells.iter().enumerate() {
        for b in cells.iter().skip(i + 1) {
            assert_ne!(key_of(*a), key_of(*b));
        }
    }
    assert_eq!(key_of(cell(i32::MIN, i32::MIN)), 0);
    assert_eq!(key_of(cell(i32::MAX, i32::MAX)), u64::MAX);
}

#[test]
fn best_entry_prefers_low_cost_then_high_g_then_first() {
    let e = |x: i32, g: u64, cost: u64| FrontierEntry { cell: cell(x, 0), g, cost };
    assert_eq!(best_entry(&vec![e(0, 1, 9), e(1, 0, 5), e(2, 3, 7)]), 1);
    assert_eq!(best_entry(&vec![e(0, 1, 5), e(1, 4, 5), e(2, 2, 5)]), 1);
    assert_eq!(best_entry(&vec![e(0, 2, 5), e(1, 2, 5), e(2, 2, 5)]), 0);
    assert_eq!(best_entry(&vec![e(0, 0, 3)]), 0);
}

use gridpath::coord::Position;
use gridpath::generate::{cell_for_draw, gen_map, gen_random_char, mark_path, random_position, route_or_empty};
use gridpath::grid::Grid;
use gridpath::route::SearchError;

fn pos(x: usize, y: usize) -> Position {
    Position::new(x, y)
}

fn grid_of(rows: &[&str]) -> Grid<char> {
    let height = rows.len();
    let width = rows[0].chars().count();
    let mut tiles = Vec::new();
    for r in rows {
        tiles.extend(r.chars());
    }
    Grid::new(tiles, width, height)
}

fn is_route(grid: &Grid<char>, start: Position, goal: Position, path: &[Position]) -> bool {
    if path.is_empty() || path[0] != goal || *path.last().unwrap() != start {
        return false;
    }
    for k in 0..path.len() - 1 {
        let a = path[k];
        let b = path[k + 1];
        let gap = a.x.abs_diff(b.x) + a.y.abs_diff(b.y);
        if gap != 1 || grid.get(a) != Some(&'.') {
            return false;
        }
    }
    true
}

#[test]
fn get_reads_row_major_cells() {
    let grid = Grid::new(vec![1, 2, 3, 4, 5, 6], 3, 2);
    for y in 0..2 {
        for x in 0..3 {
            assert_eq!(grid.get(pos(x, y)), Some(&(y * 3 + x + 1)));
        }
    }
    assert_eq!(grid.get(pos(3, 0)), None);
    assert_eq!(grid.get(pos(0, 2)), None);
    assert_eq!(grid.get(pos(usize::MAX, usize::MAX)), None);
}

#[test]
fn in_bounds_checks_both_axes() {
    let grid = Grid::new(vec!['.'; 6], 3, 2);
    assert!(grid.in_bounds(pos(2, 1)));
    assert!(!grid.in_bounds(pos(3, 1)));
    assert!(!grid.in_bounds(pos(2, 2)));
    assert_eq!(grid.width(), 3);
    assert_eq!(grid.height(), 2);
}

#[test]
fn set_changes_one_cell() {
    let mut grid = Grid::new(vec!['.'; 6], 3, 2);
    grid.set(pos(1, 1), '#');
    assert_eq!(grid.get(pos(1, 1)), Some(&'#'));
    assert_eq!(grid.row(0), vec!['.', '.', '.']);
    assert_eq!(grid.row(1), vec!['.', '#', '.']);
}

#[test]
fn random_cell_is_a_cell_of_the_grid() {
    let grid = Grid::new(vec!['a', 'b', 'c', 'd'], 2, 2);
    for _ in 0..50 {
        let c = *grid.random_cell();
        assert!(['a', 'b', 'c', 'd'].contains(&c));
    }
}

#[test]
fn distance_is_symmetric_and_zero_on_itself() {
    let pairs = [(pos(0, 0), pos(3, 4)), (pos(7, 2), pos(1, 9)), (pos(5, 5), pos(5, 0))];
    for (a, b) in pairs {
        assert_eq!(a.distance(&b), b.distance(&a));
        assert_eq!(a.distance(&a), 0);
    }
}

#[test]
fn distance_truncates_the_square_root() {
    assert_eq!(pos(0, 0).distance(&pos(3, 4)), 5);
    assert_eq!(pos(0, 0).distance(&pos(1, 1)), 1);
    assert_eq!(pos(0, 0).distance(&pos(2, 3)), 3);
    assert_eq!(pos(10, 10).distance(&pos(2, 4)), 10);
    assert_eq!(pos(0, 0).distance(&pos(4, 4)), 5);
    assert_eq!(pos(0, 0).distance(&pos(0, 0)), 0);
}

#[test]
fn neighbors_of_origin_are_two() {
    let n = pos(0, 0).neighbors();
    assert_eq!(n, vec![pos(1, 0), pos(0, 1)]);
}

#[test]
fn neighbors_of_inner_position_are_four_in_order() {
    let n = pos(3, 4).neighbors();
    assert_eq!(n, vec![pos(4, 4), pos(2, 4), pos(3, 5), pos(3, 3)]);
}

#[test]
fn neighbors_on_one_edge_are_three() {
    assert_eq!(pos(0, 2).neighbors(), vec![pos(1, 2), pos(0, 3), pos(0, 1)]);
    assert_eq!(pos(2, 0).neighbors(), vec![pos(3, 0), pos(1, 0), pos(2, 1)]);
}

#[test]
fn nearest_index_prefers_the_first_of_equals() {
    let goal = pos(5, 5);
    let points = vec![pos(0, 0), pos(5, 4), pos(4, 5), pos(9, 9)];
    assert_eq!(goal.nearest_index(&points), 1);
    let points = vec![pos(9, 9), pos(5, 5)];
    assert_eq!(goal.nearest_index(&points), 1);
}

#[test]
fn blocked_middle_cell_gives_no_path() {
    let grid = grid_of(&[".$."]);
    assert_eq!(pos(0, 0).path_between(pos(2, 0), &grid), Err(SearchError::NoPathFound));
}

#[test]
fn open_row_gives_the_straight_path() {
    let grid = grid_of(&["..."]);
    assert_eq!(pos(0, 0).path_between(pos(2, 0), &grid), Ok(vec![pos(2, 0), pos(1, 0), pos(0, 0)]));
}

#[test]
fn start_equal_to_goal_gives_itself() {
    let grid = grid_of(&["...", "...", "..."]);
    assert_eq!(pos(1, 1).path_between(pos(1, 1), &grid), Ok(vec![pos(1, 1)]));
    let blocked = grid_of(&["$$$", "$$$", "$$$"]);
    assert_eq!(pos(1, 1).path_between(pos(1, 1), &blocked), Ok(vec![pos(1, 1)]));
}

#[test]
fn found_path_is_a_route_around_walls() {
    let grid = grid_of(&[
        ".....",
        ".$$$.",
        ".$...",
        ".$.$$",
        "...$.",
    ]);
    let start = pos(0, 0);
    let goal = pos(2, 2);
    let path = start.path_between(goal, &grid).unwrap();
    assert!(is_route(&grid, start, goal, &path));
    let unreachable = pos(4, 4);
    assert_eq!(start.path_between(unreachable, &grid), Err(SearchError::NoPathFound));
}

#[test]
fn walled_in_endpoints_have_no_path() {
    let mut grid = grid_of(&["$$$$", "$$$$", "$$$$"]);
    let start = pos(0, 0);
    let goal = pos(3, 2);
    grid.set(start, '.');
    grid.set(goal, '.');
    assert_eq!(start.path_between(goal, &grid), Err(SearchError::NoPathFound));
}

#[test]
fn adjacent_endpoints_on_blocked_grid_connect() {
    let grid = grid_of(&["$..$"]);
    assert_eq!(pos(1, 0).path_between(pos(2, 0), &grid), Ok(vec![pos(2, 0), pos(1, 0)]));
}

#[test]
fn blocked_goal_is_never_reached() {
    let grid = grid_of(&["..$"]);
    assert_eq!(pos(0, 0).path_between(pos(2, 0), &grid), Err(SearchError::NoPathFound));
}

#[test]
fn search_is_repeatable() {
    let grid = grid_of(&[
        "......",
        ".$$.$.",
        "......",
        "$.$$..",
    ]);
    let first = pos(0, 0).path_between(pos(5, 3), &grid);
    let second = pos(0, 0).path_between(pos(5, 3), &grid);
    assert_eq!(first, second);
    assert!(is_route(&grid, pos(0, 0), pos(5, 3), &first.unwrap()));
}

#[test]
fn greedy_search_follows_the_nearest_cells() {
    let grid = grid_of(&["...", "...", "..."]);
    let path = pos(0, 0).path_between(pos(2, 2), &grid).unwrap();
    assert_eq!(path.len(), 5);
    assert!(is_route(&grid, pos(0, 0), pos(2, 2), &path));
}

#[test]
fn reconstruct_walks_back_to_a_cell_without_predecessor() {
    let table = vec![None, Some(pos(0, 0)), Some(pos(1, 0))];
    assert_eq!(
        Position::reconstruct_path(&table, 3, pos(2, 0)),
        Ok(vec![pos(2, 0), pos(1, 0), pos(0, 0)])
    );
    assert_eq!(Position::reconstruct_path(&table, 3, pos(0, 0)), Ok(vec![pos(0, 0)]));
}

#[test]
fn reconstruct_reports_a_self_loop() {
    let table = vec![Some(pos(0, 0)), Some(pos(0, 0))];
    assert_eq!(Position::reconstruct_path(&table, 2, pos(1, 0)), Err(SearchError::SelfLoopInPredecessor));
}

#[test]
fn reconstruct_reports_a_longer_cycle() {
    let table = vec![Some(pos(1, 0)), Some(pos(0, 0))];
    assert_eq!(Position::reconstruct_path(&table, 2, pos(0, 0)), Err(SearchError::PredecessorCycle));
}

#[test]
fn draws_map_to_cells() {
    assert_eq!(cell_for_draw(4), '$');
    for d in [0, 1, 2, 3] {
        assert_eq!(cell_for_draw(d), '.');
    }
    for _ in 0..50 {
        let c = gen_random_char();
        assert!(c == '.' || c == '$');
    }
}

#[test]
fn generated_map_fills_the_grid() {
    let map = gen_map(18, 9);
    assert_eq!(map.len(), 162);
    assert!(map.iter().all(|c| *c == '.' || *c == '$'));
    assert!(gen_map(0, 5).is_empty());
}

#[test]
fn random_position_lies_inside() {
    for _ in 0..100 {
        let p = random_position(3, 2);
        assert!(p.x < 3 && p.y < 2);
    }
    assert_eq!(random_position(1, 1), pos(0, 0));
}

#[test]
fn marking_a_path_overlays_only_its_cells() {
    let mut grid = grid_of(&["...", ".$.", "..."]);
    let path = pos(0, 0).path_between(pos(2, 2), &grid);
    let route = route_or_empty(path);
    mark_path(&mut grid, &route, '#');
    for p in &route {
        assert_eq!(grid.get(*p), Some(&'#'));
    }
    assert_eq!(grid.get(pos(1, 1)), Some(&'$'));
    let failed = route_or_empty(Err(SearchError::NoPathFound));
    assert!(failed.is_empty());
}

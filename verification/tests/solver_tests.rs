use astar::grid::Symbol;
use astar::heuristic::score;
use astar::node::Node;
use astar::solver::{point_in_bounds, solve};

#[test]
fn test_score_0x0_0x0() {
    assert!(score((0, 0), (0, 0)) == 1);
}

#[test]
fn test_score_1x1_3x3() {
    assert!(score((1, 1), (3, 3)) == 3);
}

#[test]
fn test_score_5x9_13x23() {
    assert!(score((5, 9), (13, 23)) == 17);
}

#[test]
fn astar_test_score_0x0_0x0() {
    assert!(score((0, 0), (0, 0)) == 1);
}

#[test]
fn astar_test_score_1x1_3x3() {
    assert!(score((1, 1), (3, 3)) == 3);
}

#[test]
fn astar_test_score_5x9_13x23() {
    assert!(score((5, 9), (13, 23)) == 17);
}

#[test]
fn with_an_open_grid_of_size_2x2__where_the_topleft_is_start__where_the_bottomright_is_finish__it_makes_a_route_through_the_topright(
) {
    let grid = vec![
        vec![Symbol::Start, Symbol::Open],
        vec![Symbol::Open, Symbol::Finish],
    ];
    let goal = vec![
        vec![Symbol::Start, Symbol::Route],
        vec![Symbol::Open, Symbol::Finish],
    ];
    assert_eq!(solve(grid), goal);
}

#[test]
fn test_score_against_itself_is_one() {
    // Zero distance still scores one: the constant offset.
    assert_eq!(score((7, 42), (7, 42)), 1);
    assert_eq!(score((123456, 999), (123456, 999)), 1);
}

#[test]
fn test_point_in_bounds() {
    let grid = vec![
        vec![Symbol::Start, Symbol::Closed],
        vec![Symbol::Open, Symbol::Finish],
    ];
    assert!(point_in_bounds(0, 1, &grid));
    assert!(!point_in_bounds(1, 0, &grid)); // blocked
    assert!(!point_in_bounds(2, 0, &grid)); // off the east edge
    assert!(!point_in_bounds(0, 2, &grid)); // off the south edge
}

#[test]
fn test_solve_unreachable_finish_leaves_grid_unchanged() {
    // The finish is walled in by Closed cells: no Route marker anywhere.
    let grid = vec![
        vec![Symbol::Start, Symbol::Open, Symbol::Open],
        vec![Symbol::Open, Symbol::Closed, Symbol::Closed],
        vec![Symbol::Open, Symbol::Closed, Symbol::Finish],
    ];
    let solved = solve(grid.clone());
    assert_eq!(solved, grid);
}

#[test]
fn test_solve_adjacent_start_and_finish_leaves_grid_unchanged() {
    // A single step from start to finish passes through no intermediate cell.
    let grid = vec![vec![Symbol::Start, Symbol::Finish]];
    let solved = solve(grid.clone());
    assert_eq!(solved, grid);
}

#[test]
fn test_solve_corridor_marks_every_open_cell_between() {
    let grid = vec![vec![
        Symbol::Start,
        Symbol::Open,
        Symbol::Open,
        Symbol::Finish,
    ]];
    let goal = vec![vec![
        Symbol::Start,
        Symbol::Route,
        Symbol::Route,
        Symbol::Finish,
    ]];
    assert_eq!(solve(grid), goal);
}

#[test]
fn test_solve_routes_around_a_wall() {
    let grid = vec![
        vec![Symbol::Start, Symbol::Closed, Symbol::Open],
        vec![Symbol::Open, Symbol::Closed, Symbol::Finish],
        vec![Symbol::Open, Symbol::Open, Symbol::Open],
    ];
    let solved = solve(grid.clone());
    // Start and finish keep their markers.
    assert_eq!(solved[0][0], Symbol::Start);
    assert_eq!(solved[1][2], Symbol::Finish);
    // Closed cells are never overwritten.
    assert_eq!(solved[0][1], Symbol::Closed);
    assert_eq!(solved[1][1], Symbol::Closed);
    // The only way around the wall is the west and south rim.
    assert_eq!(solved[1][0], Symbol::Route);
    assert_eq!(solved[2][0], Symbol::Route);
    assert_eq!(solved[2][1], Symbol::Route);
    assert_eq!(solved[2][2], Symbol::Route);
}

#[test]
fn test_solve_twice_gives_identical_output() {
    // The solver is deterministic: same input, bit-identical output.
    let grid = vec![
        vec![Symbol::Start, Symbol::Open, Symbol::Open],
        vec![Symbol::Open, Symbol::Closed, Symbol::Open],
        vec![Symbol::Open, Symbol::Open, Symbol::Finish],
    ];
    let first = solve(grid.clone());
    let second = solve(grid);
    assert_eq!(first, second);
}

#[test]
fn test_node_equality_is_by_position_only() {
    let a = Node {
        x: 3,
        y: 4,
        parent_x: 2,
        parent_y: 4,
        depth: 5,
        cost: 9,
    };
    let b = Node {
        x: 3,
        y: 4,
        parent_x: 3,
        parent_y: 3,
        depth: 1,
        cost: 2,
    };
    let c = Node {
        x: 4,
        y: 4,
        parent_x: 2,
        parent_y: 4,
        depth: 5,
        cost: 9,
    };
    assert!(a == b);
    assert!(a != c);
}

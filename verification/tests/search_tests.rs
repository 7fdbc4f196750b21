use std::collections::HashMap;
use terrain_route::grid::{create_game, get_edges, validate, Vector};
use terrain_route::route::{reconstruct, route_total, Route};
use terrain_route::scores::key;
use terrain_route::grid::GridError;
use terrain_route::optimal::is_fair;
use terrain_route::search::{score_at, search, solve};

fn cheapest(world: &Vec<Vec<u8>>, start: Vector, end: Vector) -> Option<u32> {
    let rows = world.len();
    let cols = world[0].len();
    let mut best: Vec<Vec<Option<u32>>> = vec![vec![None; cols]; rows];
    best[start.0 as usize][start.1 as usize] = Some(0);
    let mut changed = true;
    while changed {
        changed = false;
        for r in 0..rows {
            for c in 0..cols {
                if let Some(d) = best[r][c] {
                    let here = Vector(r as u8, c as u8);
                    for n in get_edges(world, &here) {
                        let t = d + n.cost(world) as u32;
                        let slot = &mut best[n.0 as usize][n.1 as usize];
                        if slot.map_or(true, |old| t < old) {
                            *slot = Some(t);
                            changed = true;
                        }
                    }
                }
            }
        }
    }
    best[end.0 as usize][end.1 as usize]
}

fn check_route(world: &Vec<Vec<u8>>, route: &Route, start: Vector, end: Vector) {
    assert_eq!(route.cells[0], start);
    assert_eq!(route.cells[route.cells.len() - 1], end);
    let mut sum: u32 = 0;
    for i in 1..route.cells.len() {
        let a = route.cells[i - 1];
        let b = route.cells[i];
        let d = (a.0 as i32 - b.0 as i32).abs() + (a.1 as i32 - b.1 as i32).abs();
        assert_eq!(d, 1);
        assert_ne!(world[b.0 as usize][b.1 as usize], 1);
        sum += b.cost(world) as u32;
    }
    assert_eq!(sum, route.total);
}

fn floor_room() -> Vec<Vec<u8>> {
    vec![vec![1, 1, 1, 1], vec![1, 0, 0, 1], vec![1, 0, 0, 1], vec![1, 1, 1, 1]]
}

#[test]
fn adjacent_cells_in_a_floor_corridor() {
    let world = floor_room();
    let route = search(&world, Vector(1, 1), Vector(1, 2)).unwrap();
    assert_eq!(route.cells.len(), 2);
    assert_eq!(route.cells, vec![Vector(1, 1), Vector(1, 2)]);
    assert_eq!(route.total, 1);
}

#[test]
fn floor_detour_beats_water_shortcut() {
    let world = vec![
        vec![1, 1, 1, 1, 1],
        vec![1, 3, 2, 4, 1],
        vec![1, 0, 0, 0, 1],
        vec![1, 1, 1, 1, 1],
    ];
    let (start, end) = validate(&world).unwrap();
    let route = search(&world, start, end).unwrap();
    assert_eq!(
        route.cells,
        vec![Vector(1, 1), Vector(2, 1), Vector(2, 2), Vector(2, 3), Vector(1, 3)]
    );
    assert_eq!(route.total, 3);
}

#[test]
fn water_is_crossed_when_there_is_no_other_way() {
    let world = vec![vec![1, 1, 1, 1, 1], vec![1, 3, 2, 4, 1], vec![1, 1, 1, 1, 1]];
    let route = search(&world, Vector(1, 1), Vector(1, 3)).unwrap();
    assert_eq!(route.cells, vec![Vector(1, 1), Vector(1, 2), Vector(1, 3)]);
    assert_eq!(route.total, 5);
}

#[test]
fn start_equal_to_end_is_a_single_cell() {
    let world = floor_room();
    let route = search(&world, Vector(2, 2), Vector(2, 2)).unwrap();
    assert_eq!(route.cells, vec![Vector(2, 2)]);
    assert_eq!(route.total, 0);
}

#[test]
fn enclosed_end_has_no_path() {
    let world = vec![
        vec![3, 0, 0, 0, 0],
        vec![0, 1, 1, 1, 0],
        vec![0, 1, 4, 1, 0],
        vec![0, 1, 1, 1, 0],
        vec![0, 0, 0, 0, 0],
    ];
    let (start, end) = validate(&world).unwrap();
    assert!(search(&world, start, end).is_none());
    assert_eq!(cheapest(&world, start, end), None);
}

#[test]
fn route_runs_from_start_to_end() {
    let world = create_game();
    let (start, end) = validate(&world).unwrap();
    let route = search(&world, start, end).unwrap();
    check_route(&world, &route, start, end);
}

#[test]
fn sample_route_is_the_expected_one() {
    let world = create_game();
    let route = search(&world, Vector(11, 1), Vector(5, 6)).unwrap();
    assert_eq!(route.total, 18);
    assert_eq!(route.cells.len(), 20);
    assert_eq!(route.cells[1], Vector(10, 1));
    assert_eq!(route.cells[10], Vector(1, 1));
    assert_eq!(route.cells[15], Vector(1, 6));
    assert_eq!(route.cells[18], Vector(4, 6));
}

#[test]
fn ties_in_an_open_field_resolve_the_same_way() {
    let world = vec![vec![3, 0, 0], vec![0, 0, 0], vec![0, 0, 4]];
    let route = search(&world, Vector(0, 0), Vector(2, 2)).unwrap();
    assert_eq!(
        route.cells,
        vec![Vector(0, 0), Vector(0, 1), Vector(0, 2), Vector(1, 2), Vector(2, 2)]
    );
    assert_eq!(route.total, 3);
}

#[test]
fn searching_twice_gives_the_same_route() {
    let world = create_game();
    let a = search(&world, Vector(11, 1), Vector(5, 6)).unwrap();
    let b = search(&world, Vector(11, 1), Vector(5, 6)).unwrap();
    assert_eq!(a.cells, b.cells);
    assert_eq!(a.total, b.total);
}

#[test]
fn total_is_the_least_over_all_routes() {
    let worlds = vec![
        create_game(),
        vec![
            vec![3, 2, 0, 0, 0, 0],
            vec![0, 2, 0, 1, 1, 0],
            vec![0, 2, 0, 1, 4, 0],
            vec![0, 1, 0, 1, 2, 0],
            vec![0, 0, 0, 2, 2, 0],
            vec![2, 2, 0, 0, 0, 0],
        ],
        vec![
            vec![0, 0, 0, 0, 0],
            vec![0, 1, 2, 1, 0],
            vec![3, 2, 2, 2, 4],
            vec![0, 1, 2, 1, 0],
            vec![0, 0, 0, 0, 0],
        ],
    ];
    for world in worlds.iter() {
        let (start, end) = validate(world).unwrap();
        let route = search(world, start, end).unwrap();
        check_route(world, &route, start, end);
        assert_eq!(Some(route.total), cheapest(world, start, end));
    }
}

#[test]
fn every_pair_of_a_small_field_is_routed_at_least_cost() {
    let world = vec![
        vec![0, 2, 0, 0],
        vec![0, 1, 1, 0],
        vec![0, 2, 0, 0],
        vec![0, 0, 2, 1],
    ];
    for a in 0..16u8 {
        for b in 0..16u8 {
            let start = Vector(a / 4, a % 4);
            let end = Vector(b / 4, b % 4);
            let found = search(&world, start, end);
            let least = cheapest(&world, start, end);
            assert_eq!(found.as_ref().map(|r| r.total), least);
            if let Some(route) = found {
                check_route(&world, &route, start, end);
            }
        }
    }
}

#[test]
fn reconstruct_walks_the_records_back() {
    let mut parents: HashMap<u64, Option<Vector>> = HashMap::new();
    parents.insert(key(Vector(0, 0)), None);
    parents.insert(key(Vector(0, 1)), Some(Vector(0, 0)));
    parents.insert(key(Vector(1, 1)), Some(Vector(0, 1)));
    assert_eq!(
        reconstruct(&parents, Vector(0, 0), Vector(1, 1)),
        Some(vec![Vector(0, 0), Vector(0, 1), Vector(1, 1)])
    );
    assert_eq!(reconstruct(&parents, Vector(0, 0), Vector(0, 0)), Some(vec![Vector(0, 0)]));
    assert_eq!(reconstruct(&parents, Vector(0, 0), Vector(5, 5)), None);
    assert_eq!(
        reconstruct(&parents, Vector(0, 1), Vector(1, 1)),
        Some(vec![Vector(0, 1), Vector(1, 1)])
    );
}

#[test]
fn reconstruct_stops_at_a_cell_without_predecessor() {
    let mut parents: HashMap<u64, Option<Vector>> = HashMap::new();
    parents.insert(key(Vector(2, 2)), None);
    parents.insert(key(Vector(2, 3)), Some(Vector(2, 2)));
    assert_eq!(
        reconstruct(&parents, Vector(9, 9), Vector(2, 3)),
        Some(vec![Vector(2, 2), Vector(2, 3)])
    );
}

#[test]
fn reconstruct_fails_on_a_broken_chain() {
    let mut parents: HashMap<u64, Option<Vector>> = HashMap::new();
    parents.insert(key(Vector(0, 0)), None);
    parents.insert(key(Vector(1, 1)), Some(Vector(0, 1)));
    assert_eq!(reconstruct(&parents, Vector(0, 0), Vector(1, 1)), None);
    let none: HashMap<u64, Option<Vector>> = HashMap::new();
    assert_eq!(reconstruct(&none, Vector(0, 0), Vector(0, 0)), None);
}

#[test]
fn reconstruct_gives_up_on_a_cycle() {
    let mut parents: HashMap<u64, Option<Vector>> = HashMap::new();
    parents.insert(key(Vector(0, 0)), Some(Vector(0, 1)));
    parents.insert(key(Vector(0, 1)), Some(Vector(0, 0)));
    assert_eq!(reconstruct(&parents, Vector(9, 9), Vector(0, 0)), None);
}

#[test]
fn route_total_adds_entered_cells() {
    let world = vec![vec![3, 2, 0], vec![0, 0, 4]];
    let cells = vec![Vector(0, 0), Vector(0, 1), Vector(0, 2), Vector(1, 2)];
    assert_eq!(route_total(&world, &cells), 6);
    assert_eq!(route_total(&world, &vec![Vector(0, 1)]), 0);
}

#[test]
fn keys_and_scores() {
    assert_eq!(key(Vector(0, 0)), 0);
    assert_eq!(key(Vector(1, 2)), 258);
    assert_eq!(key(Vector(255, 255)), 65535);
    let mut scores: HashMap<u64, u32> = HashMap::new();
    scores.insert(key(Vector(1, 2)), 7);
    assert_eq!(score_at(&scores, Vector(1, 2)), Some(7));
    assert_eq!(score_at(&scores, Vector(2, 1)), None);
}

#[test]
fn solve_refuses_a_malformed_grid() {
    let world = vec![vec![1, 1, 1, 1], vec![1, 3, 4], vec![1, 0, 0, 1], vec![1, 1, 1, 1]];
    assert_eq!(solve(&world).unwrap_err(), GridError::InvalidGrid);
    let empty: Vec<Vec<u8>> = Vec::new();
    assert_eq!(solve(&empty).unwrap_err(), GridError::InvalidGrid);
}

#[test]
fn solve_reports_a_missing_marker() {
    let world = vec![vec![0, 0, 0], vec![0, 3, 0]];
    assert_eq!(solve(&world).unwrap_err(), GridError::MissingMarker);
    let other = vec![vec![0, 4, 0], vec![0, 0, 0]];
    assert_eq!(solve(&other).unwrap_err(), GridError::MissingMarker);
}

#[test]
fn solve_routes_between_the_markers() {
    let world = vec![vec![1, 1, 1, 1], vec![1, 3, 4, 1], vec![1, 0, 0, 1], vec![1, 1, 1, 1]];
    let solution = solve(&world).unwrap();
    assert_eq!(solution.start, Vector(1, 1));
    assert_eq!(solution.end, Vector(1, 2));
    let route = solution.route.unwrap();
    assert_eq!(route.cells, vec![Vector(1, 1), Vector(1, 2)]);
    assert_eq!(route.total, 0);
}

#[test]
fn solve_reports_no_path_as_a_result() {
    let world = vec![vec![3, 1, 4], vec![0, 1, 0]];
    let solution = solve(&world).unwrap();
    assert_eq!(solution.start, Vector(0, 0));
    assert_eq!(solution.end, Vector(0, 2));
    assert!(solution.route.is_none());
}

#[test]
fn solve_the_sample() {
    let solution = solve(&create_game()).unwrap();
    assert_eq!(solution.start, Vector(11, 1));
    assert_eq!(solution.end, Vector(5, 6));
    assert_eq!(solution.route.unwrap().total, 18);
}

#[test]
fn a_grid_with_its_markers_at_the_ends_is_fair() {
    let world = create_game();
    assert!(is_fair(&world, Vector(11, 1), Vector(5, 6)));
    assert!(!is_fair(&world, Vector(11, 1), Vector(1, 1)));
    let plain = vec![vec![0, 2, 0], vec![0, 1, 5]];
    assert!(is_fair(&plain, Vector(0, 0), Vector(1, 2)));
    let twice = vec![vec![3, 0, 3], vec![0, 0, 4]];
    assert!(!is_fair(&twice, Vector(0, 0), Vector(1, 2)));
}

#[test]
fn floor_around_the_wall_beats_water() {
    let world = vec![
        vec![3, 2, 0, 0],
        vec![0, 1, 1, 0],
        vec![0, 0, 0, 4],
    ];
    let route = search(&world, Vector(0, 0), Vector(2, 3)).unwrap();
    assert_eq!(
        route.cells,
        vec![Vector(0, 0), Vector(1, 0), Vector(2, 0), Vector(2, 1), Vector(2, 2), Vector(2, 3)]
    );
    assert_eq!(route.total, 4);
}

#[test]
fn unknown_terrain_is_dear_but_passable() {
    let world = vec![vec![3, 9, 4]];
    let route = search(&world, Vector(0, 0), Vector(0, 2)).unwrap();
    assert_eq!(route.cells, vec![Vector(0, 0), Vector(0, 1), Vector(0, 2)]);
    assert_eq!(route.total, 10);
}

#[test]
fn floor_detour_between_plain_floor_cells() {
    let world = vec![
        vec![1, 1, 1, 1, 1],
        vec![1, 0, 2, 0, 1],
        vec![1, 0, 0, 0, 1],
        vec![1, 1, 1, 1, 1],
    ];
    let route = search(&world, Vector(1, 1), Vector(1, 3)).unwrap();
    assert_eq!(
        route.cells,
        vec![Vector(1, 1), Vector(2, 1), Vector(2, 2), Vector(2, 3), Vector(1, 3)]
    );
    assert_eq!(route.total, 4);
}

#[test]
fn free_cells_off_the_ends_can_mislead_the_estimate() {
    let world = vec![vec![3, 4, 4], vec![2, 0, 4]];
    assert!(!is_fair(&world, Vector(1, 0), Vector(1, 2)));
    let route = search(&world, Vector(1, 0), Vector(1, 2)).unwrap();
    check_route(&world, &route, Vector(1, 0), Vector(1, 2));
    assert_eq!(route.cells, vec![Vector(1, 0), Vector(1, 1), Vector(1, 2)]);
    assert_eq!(route.total, 1);
    assert_eq!(cheapest(&world, Vector(1, 0), Vector(1, 2)), Some(0));
}

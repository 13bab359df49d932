use agile_archer::math::astar::{
    distance_to_target, find_path, get_neighbours, TileType,
};

fn grid(rows: &[&str]) -> Vec<Vec<TileType>> {
    rows.iter()
        .map(|row| {
            row.chars()
                .map(|c| if c == '#' { TileType::Unpassable } else { TileType::Open })
                .collect()
        })
        .collect()
}

fn adjacent(a: (usize, usize), b: (usize, usize)) -> bool {
    let dx = if a.0 > b.0 { a.0 - b.0 } else { b.0 - a.0 };
    let dy = if a.1 > b.1 { a.1 - b.1 } else { b.1 - a.1 };
    dx + dy == 1
}

fn assert_route(tiles: &Vec<Vec<TileType>>, start: (usize, usize), target: (usize, usize), route: &Vec<(usize, usize)>) {
    assert!(!route.is_empty());
    assert_eq!(*route.last().unwrap(), target);
    let mut at = start;
    for cell in route {
        assert!(adjacent(at, *cell));
        assert_eq!(tiles[cell.1][cell.0], TileType::Open);
        at = *cell;
    }
}

#[test]
fn no_steps_lead_from_a_cell_to_itself() {
    let tiles = grid(&["...", ".#.", "..."]);
    for y in 0..3 {
        for x in 0..3 {
            assert!(find_path(&tiles, (x, y), (x, y)).is_empty());
        }
    }
}

#[test]
fn a_straight_route_lists_every_cell_up_to_the_target() {
    let tiles = grid(&["....."]);
    assert_eq!(
        find_path(&tiles, (0, 0), (4, 0)),
        vec![(1, 0), (2, 0), (3, 0), (4, 0)]
    );
    assert_eq!(find_path(&tiles, (3, 0), (2, 0)), vec![(2, 0)]);
}

#[test]
fn a_route_goes_around_walls_step_by_step() {
    let tiles = grid(&[
        ".....",
        ".###.",
        ".#...",
        ".#.#.",
        "...#.",
    ]);
    let route = find_path(&tiles, (0, 0), (4, 4));
    assert_route(&tiles, (0, 0), (4, 4), &route);
    assert_eq!(route.len(), 8);
    let route = find_path(&tiles, (2, 3), (0, 2));
    assert_route(&tiles, (2, 3), (0, 2), &route);
    assert_eq!(route.len(), 5);
}

#[test]
fn the_route_is_as_short_as_any() {
    let tiles = grid(&[
        ".......",
        ".#####.",
        ".#...#.",
        ".#.#.#.",
        "...#...",
    ]);
    let route = find_path(&tiles, (2, 3), (4, 3));
    assert_route(&tiles, (2, 3), (4, 3), &route);
    assert_eq!(route.len(), 4);
    let route = find_path(&tiles, (0, 4), (6, 4));
    assert_route(&tiles, (0, 4), (6, 4), &route);
    assert_eq!(route.len(), 10);
}

#[test]
fn a_blocked_target_has_no_route() {
    let tiles = grid(&["...", ".#.", "..."]);
    assert!(find_path(&tiles, (0, 0), (1, 1)).is_empty());
}

#[test]
fn a_target_outside_the_grid_has_no_route() {
    let tiles = grid(&["...", "..."]);
    assert!(find_path(&tiles, (0, 0), (3, 0)).is_empty());
    assert!(find_path(&tiles, (0, 0), (0, 2)).is_empty());
    assert!(find_path(&tiles, (2, 1), (usize::MAX, usize::MAX)).is_empty());
}

#[test]
fn a_walled_off_target_has_no_route() {
    let tiles = grid(&[
        "..#..",
        "..#..",
        "..#..",
    ]);
    assert!(find_path(&tiles, (0, 1), (4, 1)).is_empty());
    assert!(!find_path(&tiles, (0, 1), (1, 2)).is_empty());
}

#[test]
fn a_start_outside_the_grid_has_no_route() {
    let tiles = grid(&["...", "..."]);
    assert!(find_path(&tiles, (3, 0), (0, 0)).is_empty());
    assert!(find_path(&tiles, (0, 5), (0, 0)).is_empty());
    let none: Vec<Vec<TileType>> = Vec::new();
    assert!(find_path(&none, (0, 0), (1, 0)).is_empty());
}

#[test]
fn a_blocked_start_can_still_be_left() {
    let tiles = grid(&["#.."]);
    assert_eq!(find_path(&tiles, (0, 0), (2, 0)), vec![(1, 0), (2, 0)]);
}

#[test]
fn neighbours_come_left_right_above_below() {
    let tiles = grid(&["...", "...", "..."]);
    assert_eq!(
        get_neighbours(&(1, 1), &tiles),
        vec![(0, 1), (2, 1), (1, 0), (1, 2)]
    );
    assert_eq!(get_neighbours(&(0, 0), &tiles), vec![(1, 0), (0, 1)]);
    assert_eq!(get_neighbours(&(2, 2), &tiles), vec![(1, 2), (2, 1)]);
    let walled = grid(&[".#.", "#.#", "..."]);
    assert_eq!(get_neighbours(&(1, 1), &walled), vec![(1, 2)]);
}

#[test]
fn distance_to_target_counts_steps_along_the_axes() {
    assert_eq!(distance_to_target(&(1, 2), &(4, 0)), 5);
    assert_eq!(distance_to_target(&(4, 0), &(1, 2)), 5);
    assert_eq!(distance_to_target(&(3, 3), &(3, 3)), 0);
    assert_eq!(
        distance_to_target(&(0, 0), &(usize::MAX, usize::MAX)),
        2 * (usize::MAX as u128)
    );
}

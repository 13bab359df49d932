use agile_archer::math::astar::{build_grid_for_map, TileType};
use agile_archer::types::{Layer, LevelMap, TileMapping};
use agile_archer::utils::regions::{add_tile, can_join, place_tile, to_mapping};
use agile_archer::utils::tiled::{
    add_column_above_to_ground, check_layers_fit, collision_grid,
    for_each_cell, is_collision_layer, parse_out_map_layers,
};
use std::collections::HashMap;

fn level(tiles: Vec<Vec<u32>>, width: u32, height: u32) -> LevelMap {
    LevelMap {
        width,
        height,
        tile_width: 16,
        tile_height: 16,
        layers: vec![Layer { name: "ground".to_string(), tiles }],
    }
}

fn platforms() -> LevelMap {
    level(
        vec![
            vec![0, 0, 0, 0, 0, 0, 0, 0],
            vec![1, 1, 1, 1, 1, 1, 0, 0],
            vec![0, 0, 0, 0, 0, 0, 0, 0],
            vec![0, 0, 0, 0, 0, 0, 1, 0],
            vec![1, 1, 0, 0, 1, 1, 1, 1],
            vec![1, 1, 1, 1, 1, 1, 1, 1],
        ],
        8,
        6,
    )
}

fn tiles_of(mapping: &TileMapping<usize>) -> Vec<(usize, usize)> {
    let mut tiles = Vec::new();
    for (row, cols) in mapping.0.iter() {
        for col in cols {
            tiles.push((*row, *col));
        }
    }
    tiles.sort();
    tiles
}

#[test]
fn test_parse_out_map_layers() {
    let map = platforms();
    let (groups, jump_areas, _) = parse_out_map_layers(&map);
    assert_eq!(groups.len(), 2);
    let row = groups[0].get(&(0)).unwrap();
    let test_row = [0, 1, 2, 3, 4, 5];
    assert_eq!(&row[..], &test_row[..]);

    let row = groups[1].get(&(2)).unwrap();
    let test_row = [6];
    assert_eq!(&row[..], &test_row[..]);

    let row = groups[1].get(&(3)).unwrap();
    let test_row = [0, 1, 4, 5, 7];
    assert_eq!(&row[..], &test_row[..]);

    let row = groups[1].get(&(4)).unwrap();
    let test_row = [2, 3];
    assert_eq!(&row[..], &test_row[..]);

    assert_eq!(jump_areas.get(&(0)).unwrap().len(), 2);
    assert_eq!(jump_areas.get(&(1)).unwrap().len(), 2);
    assert_eq!(jump_areas.get(&(2)).unwrap().len(), 7);
    assert_eq!(jump_areas.get(&(3)).unwrap().len(), 2);
    assert_eq!(jump_areas.contains_key(&(4)), false);
    assert_eq!(jump_areas.contains_key(&(5)), false);
}

#[test]
fn platforms_have_exactly_these_region_tiles() {
    let (groups, _, _) = parse_out_map_layers(&platforms());
    assert_eq!(
        tiles_of(&groups[0]),
        vec![(0, 0), (0, 1), (0, 2), (0, 3), (0, 4), (0, 5)]
    );
    assert_eq!(
        tiles_of(&groups[1]),
        vec![(2, 6), (3, 0), (3, 1), (3, 4), (3, 5), (3, 7), (4, 2), (4, 3)]
    );
}

#[test]
fn platforms_list_blocked_tiles_row_by_row() {
    let (_, _, unpassable) = parse_out_map_layers(&platforms());
    assert_eq!(unpassable.get(&1).unwrap(), &vec![0, 1, 2, 3, 4, 5]);
    assert_eq!(unpassable.get(&3).unwrap(), &vec![6]);
    assert_eq!(unpassable.get(&4).unwrap(), &vec![0, 1, 4, 5, 6, 7]);
    assert_eq!(unpassable.get(&5).unwrap(), &vec![0, 1, 2, 3, 4, 5, 6, 7]);
    assert!(!unpassable.contains_key(&0));
    assert!(!unpassable.contains_key(&2));
}

#[test]
fn platforms_list_jump_targets_in_ascending_columns() {
    let (_, jump_areas, _) = parse_out_map_layers(&platforms());
    assert_eq!(jump_areas.get(&0).unwrap(), &vec![6, 7]);
    assert_eq!(jump_areas.get(&1).unwrap(), &vec![6, 7]);
    assert_eq!(jump_areas.get(&2).unwrap(), &vec![0, 1, 2, 3, 4, 5, 7]);
    assert_eq!(jump_areas.get(&3).unwrap(), &vec![2, 3]);
}

#[test]
fn regions_partition_the_ground() {
    let map = platforms();
    let tiles = &map.layers[0].tiles;
    let (groups, _, _) = parse_out_map_layers(&map);
    let mut ground = Vec::new();
    for y in 0..5 {
        for x in 0..8 {
            if tiles[y][x] == 0 && tiles[y + 1][x] != 0 {
                ground.push((y, x));
            }
        }
    }
    ground.sort();
    let mut in_regions = Vec::new();
    for group in &groups {
        in_regions.extend(tiles_of(group));
    }
    in_regions.sort();
    assert_eq!(in_regions, ground);
    let mut once = in_regions.clone();
    once.dedup();
    assert_eq!(once.len(), in_regions.len());
}

#[test]
fn jump_targets_avoid_blocked_tiles_and_regions() {
    let (groups, jump_areas, unpassable) = parse_out_map_layers(&platforms());
    let mut count = 0;
    for y in 0..6usize {
        for x in 0..8usize {
            let blocked = unpassable.contains(&y, &x);
            let walkable = groups.iter().any(|g| g.contains(&y, &x));
            let target = jump_areas.contains(&y, &x);
            assert_eq!(target, !blocked && !walkable);
            if target {
                count += 1;
            }
        }
    }
    assert_eq!(count, 13);
}

#[test]
fn empty_collision_layer_gives_only_jump_targets() {
    let map = level(vec![vec![0, 0, 0], vec![0, 0, 0]], 3, 2);
    let (groups, jump_areas, unpassable) = parse_out_map_layers(&map);
    assert_eq!(groups.len(), 0);
    assert!(unpassable.0.is_empty());
    assert_eq!(jump_areas.get(&0).unwrap(), &vec![0, 1, 2]);
    assert_eq!(jump_areas.get(&1).unwrap(), &vec![0, 1, 2]);
}

#[test]
fn blocked_top_row_has_no_ground_above() {
    let map = level(vec![vec![1, 1], vec![0, 0]], 2, 2);
    let (groups, jump_areas, unpassable) = parse_out_map_layers(&map);
    assert_eq!(groups.len(), 0);
    assert_eq!(unpassable.get(&0).unwrap(), &vec![0, 1]);
    assert_eq!(jump_areas.get(&1).unwrap(), &vec![0, 1]);
    assert!(!jump_areas.contains_key(&0));
}

#[test]
fn regions_grow_by_column_whatever_the_row_order() {
    // The scan meets column 2 before column 0; regions still grow from the
    // lowest column, so both steps end up in one region.
    let map = level(
        vec![
            vec![0, 0, 0],
            vec![0, 0, 1],
            vec![0, 1, 0],
            vec![1, 0, 0],
        ],
        3,
        4,
    );
    let (groups, _, _) = parse_out_map_layers(&map);
    assert_eq!(groups.len(), 1);
    assert_eq!(tiles_of(&groups[0]), vec![(0, 2), (1, 1), (2, 0)]);
    assert_eq!(groups[0].get(&2).unwrap(), &vec![0]);
}

#[test]
fn distant_platforms_form_separate_regions() {
    let map = level(
        vec![
            vec![0, 0, 0, 0, 0],
            vec![1, 0, 0, 0, 0],
            vec![0, 0, 0, 0, 0],
            vec![0, 0, 0, 0, 0],
            vec![0, 0, 0, 0, 1],
        ],
        5,
        5,
    );
    let (groups, _, _) = parse_out_map_layers(&map);
    assert_eq!(groups.len(), 2);
    assert_eq!(tiles_of(&groups[0]), vec![(0, 0)]);
    assert_eq!(tiles_of(&groups[1]), vec![(3, 4)]);
}

#[test]
fn other_layers_do_not_block() {
    let mut map = level(vec![vec![0, 0], vec![1, 0]], 2, 2);
    map.layers.push(Layer {
        name: "background".to_string(),
        tiles: vec![vec![7, 7], vec![7, 7]],
    });
    let (groups, _, unpassable) = parse_out_map_layers(&map);
    assert_eq!(groups.len(), 1);
    assert_eq!(tiles_of(&unpassable), vec![(1, 0)]);
    assert!(is_collision_layer(&map.layers[0]));
    assert!(!is_collision_layer(&map.layers[1]));
}

#[test]
fn two_collision_layers_block_together() {
    let mut map = level(vec![vec![0, 0], vec![1, 0]], 2, 2);
    map.layers.push(Layer {
        name: "ground".to_string(),
        tiles: vec![vec![0, 0], vec![1, 1]],
    });
    let (groups, jump_areas, unpassable) = parse_out_map_layers(&map);
    assert_eq!(unpassable.get(&1).unwrap(), &vec![0, 1]);
    assert_eq!(groups.len(), 1);
    assert_eq!(groups[0].get(&0).unwrap(), &vec![0, 1]);
    assert!(jump_areas.0.is_empty());
}

#[test]
fn layers_larger_than_the_level_do_not_fit() {
    assert!(check_layers_fit(&platforms()));
    assert!(!check_layers_fit(&level(vec![vec![0, 0, 1]], 2, 1)));
    assert!(!check_layers_fit(&level(vec![vec![0], vec![1]], 1, 1)));
    let mut map = level(vec![vec![0]], 1, 1);
    map.layers[0].name = "sky".to_string();
    map.layers[0].tiles = vec![vec![0, 0, 0]];
    assert!(check_layers_fit(&map));
}

#[test]
fn cells_are_listed_row_by_row() {
    let layer = Layer { name: "ground".to_string(), tiles: vec![vec![0, 3], vec![4, 0]] };
    assert_eq!(for_each_cell(&layer, false), vec![(1, 0, 3), (0, 1, 4)]);
    assert_eq!(
        for_each_cell(&layer, true),
        vec![(0, 0, 0), (1, 0, 3), (0, 1, 4), (1, 1, 0)]
    );
}

#[test]
fn collision_grid_marks_blocked_cells() {
    let solid = collision_grid(&level(vec![vec![0, 2], vec![0, 0]], 3, 2));
    assert_eq!(solid, vec![vec![false, true, false], vec![false, false, false]]);
}

#[test]
fn ground_is_recorded_by_column() {
    let mut ground: TileMapping<usize> = TileMapping(HashMap::new());
    let mut keys = Vec::new();
    add_column_above_to_ground(3, 5, &mut ground, &mut keys);
    add_column_above_to_ground(3, 9, &mut ground, &mut keys);
    add_column_above_to_ground(1, 2, &mut ground, &mut keys);
    assert_eq!(keys, vec![3, 3, 1]);
    assert_eq!(ground.get(&3).unwrap(), &vec![4, 8]);
    assert_eq!(ground.get(&1).unwrap(), &vec![1]);
}

#[test]
fn tiles_are_appended_to_their_row() {
    let mut mapping: TileMapping<usize> = TileMapping::new();
    add_tile(&mut mapping, 2, 7);
    add_tile(&mut mapping, 2, 4);
    add_tile(&mut mapping, 0, 1);
    assert_eq!(mapping.get(&2).unwrap(), &vec![7, 4]);
    assert_eq!(mapping.get(&0).unwrap(), &vec![1]);
    assert!(mapping.contains(&2, &4));
    assert!(!mapping.contains(&0, &4));
    assert!(!mapping.contains(&1, &1));
}

#[test]
fn a_tile_joins_next_to_the_youngest_tile() {
    assert!(can_join((3, 4), (3, 4)));
    assert!(can_join((3, 4), (4, 5)));
    assert!(can_join((3, 4), (2, 5)));
    assert!(!can_join((3, 4), (5, 5)));
    assert!(!can_join((3, 4), (1, 4)));
    assert!(!can_join((3, 4), (3, 6)));
    assert!(!can_join((3, 4), (3, 3)));
    assert!(can_join((0, 0), (1, 1)));
    assert!(!can_join((0, usize::MAX), (0, 0)));
}

#[test]
fn a_tile_is_placed_in_the_first_region_it_can_join() {
    let mut regions = vec![vec![(5, 0)], vec![(1, 0)], vec![(2, 0)]];
    place_tile(&mut regions, (2, 1));
    assert_eq!(regions, vec![vec![(5, 0)], vec![(1, 0), (2, 1)], vec![(2, 0)]]);
    place_tile(&mut regions, (9, 9));
    assert_eq!(regions.len(), 4);
    assert_eq!(regions[3], vec![(9, 9)]);
}

#[test]
fn a_region_becomes_a_mapping_of_rows() {
    let mapping = to_mapping(&vec![(1, 0), (1, 1), (2, 2), (1, 3)]);
    assert_eq!(mapping.get(&1).unwrap(), &vec![0, 1, 3]);
    assert_eq!(mapping.get(&2).unwrap(), &vec![2]);
    assert_eq!(mapping.0.len(), 2);
}

#[test]
fn grid_blocks_what_the_mapping_lists() {
    let (_, _, unpassable) = parse_out_map_layers(&platforms());
    let grid = build_grid_for_map(&unpassable, 8, 6);
    assert_eq!(grid.len(), 6);
    assert!(grid.iter().all(|row| row.len() == 8));
    assert_eq!(grid[1][5], TileType::Unpassable);
    assert_eq!(grid[1][6], TileType::Open);
    assert_eq!(grid[3][6], TileType::Unpassable);
    assert_eq!(grid[0][0], TileType::Open);
    let blocked = grid.iter().flatten().filter(|t| **t == TileType::Unpassable).count();
    assert_eq!(blocked, 21);
}

#[test]
fn tile_mapping_rows_can_be_changed_in_place() {
    let mut mapping: TileMapping<usize> = TileMapping(HashMap::new());
    mapping.insert(4, vec![1, 2]);
    assert!(mapping.get_mut(&5).is_none());
    mapping.get_mut(&4).unwrap().push(9);
    assert_eq!(mapping.get(&4).unwrap(), &vec![1, 2, 9]);
    assert!(mapping.contains(&4, &9));
    assert!(mapping.contains_key(&4));
    assert!(!mapping.contains_key(&1));
    mapping.insert(4, vec![7]);
    assert_eq!(mapping.get(&4).unwrap(), &vec![7]);
}

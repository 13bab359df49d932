use agile_archer::components::player::BASE_ENERGY;
use agile_archer::components::{
    EnergyBar, GameState, Input, Player, PlayerActionState, Sprite, TileData,
};
use agile_archer::math::astar::{build_grid_for_map, TileType};
use agile_archer::systems::player_movement::Action;
use agile_archer::systems::{PlayerMovement, ProcessTurn};
use agile_archer::types::{Layer, LevelMap, Position, TileMapping, Turn};
use agile_archer::utils::movement::distance_to_tile;
use agile_archer::utils::tiled::parse_out_map_layers;

const TILE: i32 = 16;

fn platforms() -> LevelMap {
    LevelMap {
        width: 8,
        height: 6,
        tile_width: 16,
        tile_height: 16,
        layers: vec![Layer {
            name: "ground".to_string(),
            tiles: vec![
                vec![0, 0, 0, 0, 0, 0, 0, 0],
                vec![1, 1, 1, 1, 1, 1, 0, 0],
                vec![0, 0, 0, 0, 0, 0, 0, 0],
                vec![0, 0, 0, 0, 0, 0, 1, 0],
                vec![1, 1, 0, 0, 1, 1, 1, 1],
                vec![1, 1, 1, 1, 1, 1, 1, 1],
            ],
        }],
    }
}

struct World {
    system: PlayerMovement,
    state: GameState,
    player: Player,
    position: Position,
    data: TileData,
    highlight: Sprite,
    highlight_at: Position,
}

fn world(map: &LevelMap, tile: (usize, usize)) -> World {
    let (groups, jump_targets, unpassable) = parse_out_map_layers(map);
    let grid = build_grid_for_map(&unpassable, map.width as usize, map.height as usize);
    let mut data = TileData::new(groups, map, jump_targets);
    let position = data.world_position(tile);
    data.set_player_group_index_from_pos(&position);
    World {
        system: PlayerMovement { pathable_grid: grid },
        state: GameState::new(),
        player: Player::new(),
        position,
        data,
        highlight: Sprite { frame_name: "transparenttile.png".to_string(), visible: false },
        highlight_at: Position { x: 0, y: 0 },
    }
}

fn cursor(tile: (usize, usize), pressed: bool) -> Input {
    let mut input = Input::new();
    input.mouse_pos = (tile.0 as i32 * TILE + 3, tile.1 as i32 * TILE + 5);
    input.mouse_pressed = pressed;
    input
}

fn tick(w: &mut World, input: &Input) {
    w.system.run(
        input,
        &w.state,
        &mut w.player,
        &mut w.position,
        &mut w.data,
        &mut w.highlight,
        &mut w.highlight_at,
    );
}

#[test]
fn distance_to_tile_sums_or_takes_the_larger_gap() {
    assert_eq!(distance_to_tile(&(0, 4), &(7, 0), true), 11);
    assert_eq!(distance_to_tile(&(0, 4), &(7, 0), false), 7);
    assert_eq!(distance_to_tile(&(7, 0), &(0, 4), true), 11);
    assert_eq!(distance_to_tile(&(2, 9), &(3, 1), false), 8);
    assert_eq!(distance_to_tile(&(5, 5), &(5, 5), true), 0);
    assert_eq!(
        distance_to_tile(&(0, 0), &(usize::MAX, usize::MAX), true),
        usize::MAX
    );
    assert_eq!(distance_to_tile(&(0, 0), &(usize::MAX, 3), false), usize::MAX);
}

#[test]
fn a_new_player_rests_with_full_energy() {
    let player = Player::new();
    assert!(player.action_state == PlayerActionState::OnGround);
    assert!(player.movement_route.is_empty());
    assert_eq!(player.jump_distance, 8);
    assert_eq!(player.energy, 10);
    assert_eq!(BASE_ENERGY, 10);
    assert!(!player.moving() && !player.jumping() && !player.in_air());
}

#[test]
fn player_state_queries_follow_the_action_state() {
    let mut player = Player::new();
    player.action_state = PlayerActionState::Moving;
    assert!(player.moving() && !player.jumping() && !player.in_air());
    player.action_state = PlayerActionState::Jumping;
    assert!(!player.moving() && player.jumping() && !player.in_air());
    player.action_state = PlayerActionState::InAir;
    assert!(!player.moving() && !player.jumping() && player.in_air());
}

#[test]
fn energy_is_taken_but_never_below_zero() {
    let mut player = Player::new();
    assert!(!player.take_energy(3));
    assert_eq!(player.energy, 7);
    assert!(!player.take_energy(6));
    assert_eq!(player.energy, 1);
    assert!(player.take_energy(5));
    assert_eq!(player.energy, 0);
    assert!(player.take_energy(1));
    assert_eq!(player.energy, 0);
    assert!(player.take_energy(0));
    player.reset_energy();
    assert_eq!(player.energy, 10);
    assert!(player.take_energy(10));
    assert_eq!(player.energy, 0);
}

#[test]
fn repeated_actions_never_raise_the_energy() {
    let mut player = Player::new();
    let mut last = player.energy;
    for cost in [1usize, 0, 4, 2, 9, 1, 1] {
        player.take_energy(cost);
        assert!(player.energy <= last);
        last = player.energy;
    }
    assert_eq!(last, 0);
}

#[test]
fn the_energy_bar_is_150_wide() {
    assert_eq!(EnergyBar::get_max_width(), 150);
}

#[test]
fn a_game_starts_on_the_players_turn() {
    assert_eq!(GameState::new().turn, Turn::Player);
}

#[test]
fn tile_data_takes_its_sizes_from_the_level() {
    let map = platforms();
    let (groups, jump_targets, _) = parse_out_map_layers(&map);
    let data = TileData::new(groups, &map, jump_targets);
    assert_eq!(data.map_size, [8, 6]);
    assert_eq!(data.map_dimensions, [128, 96]);
    assert_eq!(data.tile_size, [16, 16]);
    assert_eq!(data.player_group_index, 0);
    assert_eq!(data.walkable_groups.len(), 2);
    assert!(data.jump_targets.contains(&0, &7));
}

#[test]
fn world_positions_and_tiles_convert_both_ways() {
    let w = world(&platforms(), (0, 0));
    assert_eq!(w.data.world_position((0, 0)), Position { x: 0, y: 80 });
    assert_eq!(w.data.world_position((7, 5)), Position { x: 112, y: 0 });
    assert_eq!(w.data.world_position((2, 4)), Position { x: 32, y: 16 });
    for y in 0..6 {
        for x in 0..8 {
            let at = w.data.world_position((x, y));
            assert_eq!(w.data.tile_for_position(&at), Some((x, y)));
            assert_eq!(w.data.get_tile_for_world_position(&at), (x, y));
        }
    }
    assert_eq!(w.data.tile_for_position(&Position { x: 47, y: 16 }), Some((2, 4)));
    assert_eq!(w.data.tile_for_position(&Position { x: 47, y: 17 }), Some((2, 3)));
    assert_eq!(w.data.tile_for_position(&Position { x: 48, y: 32 }), Some((3, 3)));
    assert_eq!(w.data.tile_for_position(&Position { x: 0, y: 80 }), Some((0, 0)));
    assert_eq!(w.data.tile_for_position(&Position { x: -1, y: 0 }), None);
    assert_eq!(w.data.tile_for_position(&Position { x: 128, y: 0 }), None);
    assert_eq!(w.data.tile_for_position(&Position { x: 0, y: 81 }), None);
    assert_eq!(w.data.tile_for_position(&Position { x: 0, y: -1 }), None);
}

#[test]
fn the_players_region_is_resolved_from_its_position() {
    let mut w = world(&platforms(), (0, 0));
    assert_eq!(w.data.player_group_index, 0);
    let on_lower = w.data.world_position((4, 3));
    assert!(w.data.set_player_group_index_from_pos(&on_lower));
    assert_eq!(w.data.player_group_index, 1);
    let in_the_air = w.data.world_position((2, 2));
    assert!(!w.data.set_player_group_index_from_pos(&in_the_air));
    assert_eq!(w.data.player_group_index, 1);
    assert!(!w.data.set_player_group_index_from_pos(&Position { x: -20, y: 5 }));
    assert_eq!(w.data.player_group_index, 1);
    assert_eq!(w.data.region_of((3, 0)), Some(0));
    assert_eq!(w.data.region_of((6, 2)), Some(1));
    assert_eq!(w.data.region_of((6, 0)), None);
}

#[test]
fn the_cursor_tile_counts_from_the_top_left() {
    let w = world(&platforms(), (0, 0));
    assert_eq!(w.system.get_mouse_tile(&(35, 70), &[16, 16]), (2, 4));
    assert_eq!(w.system.get_mouse_tile(&(-5, -40), &[16, 16]), (0, -2));
    assert_eq!(w.system.get_mouse_tile(&(100, 100), &[50, 25]), (2, 4));
    assert_eq!(w.system.cursor_tile_of(&cursor((5, 3), false), &w.data), Some((5, 3)));
    let mut off = Input::new();
    off.mouse_pos = (-1, 10);
    assert_eq!(w.system.cursor_tile_of(&off, &w.data), None);
}

#[test]
fn a_confirmed_walk_follows_the_route_tile_by_tile() {
    let mut w = world(&platforms(), (0, 0));
    tick(&mut w, &cursor((3, 0), true));
    assert!(w.player.action_state == PlayerActionState::Moving);
    assert_eq!(w.player.movement_route, vec![(1, 0), (2, 0), (3, 0)]);
    assert_eq!(w.player.energy, 9);
    assert_eq!(w.position, Position { x: 0, y: 80 });
    assert!(w.highlight.visible);
    assert_eq!(w.highlight_at, Position { x: 48, y: 80 });

    let idle = cursor((3, 0), false);
    tick(&mut w, &idle);
    assert_eq!(w.position, Position { x: 16, y: 80 });
    assert_eq!(w.player.movement_route, vec![(2, 0), (3, 0)]);
    assert!(!w.highlight.visible);
    assert_eq!(w.highlight_at, Position { x: 48, y: 80 });
    tick(&mut w, &idle);
    tick(&mut w, &idle);
    assert_eq!(w.position, Position { x: 48, y: 80 });
    assert!(w.player.movement_route.is_empty());
    assert!(w.player.action_state == PlayerActionState::Moving);
    tick(&mut w, &idle);
    assert!(w.player.action_state == PlayerActionState::OnGround);
    assert_eq!(w.position, Position { x: 48, y: 80 });
    assert_eq!(w.player.energy, 9);
    assert_eq!(w.data.player_group_index, 0);
}

#[test]
fn an_actor_on_its_way_cannot_be_redirected() {
    let mut w = world(&platforms(), (0, 0));
    tick(&mut w, &cursor((3, 0), true));
    assert!(w.highlight.visible);
    tick(&mut w, &cursor((5, 0), true));
    assert_eq!(w.player.movement_route, vec![(2, 0), (3, 0)]);
    assert_eq!(w.player.energy, 9);
    assert!(!w.highlight.visible);
}

#[test]
fn a_tile_outside_the_actors_region_is_no_walk() {
    let mut w = world(&platforms(), (0, 0));
    tick(&mut w, &cursor((0, 3), true));
    assert!(w.player.action_state == PlayerActionState::OnGround);
    assert!(w.player.movement_route.is_empty());
    assert_eq!(w.player.energy, 10);
    assert!(!w.highlight.visible);
}

#[test]
fn the_actors_own_tile_is_no_destination() {
    let mut w = world(&platforms(), (2, 0));
    tick(&mut w, &cursor((2, 0), true));
    assert!(w.player.action_state == PlayerActionState::OnGround);
    assert_eq!(w.player.energy, 10);
    assert!(!w.highlight.visible);
}

#[test]
fn a_jump_goes_straight_to_a_jump_target_in_reach() {
    let mut w = world(&platforms(), (5, 0));
    tick(&mut w, &cursor((7, 1), true));
    assert!(w.player.action_state == PlayerActionState::Jumping);
    assert_eq!(w.player.movement_route, vec![(7, 1)]);
    assert_eq!(w.player.energy, 9);
    assert!(w.highlight.visible);
    assert_eq!(w.highlight_at, Position { x: 112, y: 64 });
    let idle = cursor((7, 1), false);
    tick(&mut w, &idle);
    assert_eq!(w.position, Position { x: 112, y: 64 });
    assert!(w.player.action_state == PlayerActionState::Jumping);
    tick(&mut w, &idle);
    assert!(w.player.action_state == PlayerActionState::InAir);
    assert_eq!(w.data.player_group_index, 0);
}

#[test]
fn a_jump_target_beyond_the_jump_distance_is_ignored() {
    let mut w = world(&platforms(), (0, 0));
    w.player.jump_distance = 6;
    tick(&mut w, &cursor((7, 0), true));
    assert!(w.player.action_state == PlayerActionState::OnGround);
    assert!(w.player.movement_route.is_empty());
    assert_eq!(w.player.energy, 10);
    w.player.jump_distance = 7;
    tick(&mut w, &cursor((7, 0), true));
    assert!(w.player.action_state == PlayerActionState::Jumping);
}

#[test]
fn from_the_air_the_actor_walks_into_any_region_in_reach() {
    let mut w = world(&platforms(), (7, 2));
    w.player.action_state = PlayerActionState::InAir;
    assert_eq!(w.data.player_group_index, 0);
    tick(&mut w, &cursor((7, 3), true));
    assert!(w.player.action_state == PlayerActionState::Moving);
    assert_eq!(w.player.movement_route, vec![(7, 3)]);
    assert_eq!(w.data.player_group_index, 1);
    assert_eq!(w.player.energy, 9);
}

#[test]
fn from_the_air_the_actor_can_jump_again() {
    let mut w = world(&platforms(), (7, 1));
    w.player.action_state = PlayerActionState::InAir;
    tick(&mut w, &cursor((7, 0), true));
    assert!(w.player.action_state == PlayerActionState::Jumping);
    assert_eq!(w.player.movement_route, vec![(7, 0)]);
    let idle = cursor((0, 5), false);
    tick(&mut w, &idle);
    tick(&mut w, &idle);
    assert!(w.player.action_state == PlayerActionState::InAir);
    assert_eq!(w.position, Position { x: 112, y: 80 });
}

#[test]
fn landing_from_a_jump_resolves_the_region_again() {
    let mut w = world(&platforms(), (0, 0));
    w.player.action_state = PlayerActionState::Jumping;
    w.position = w.data.world_position((7, 3));
    tick(&mut w, &cursor((0, 0), false));
    assert!(w.player.action_state == PlayerActionState::InAir);
    assert_eq!(w.data.player_group_index, 1);
}

#[test]
fn an_unreachable_tile_leaves_the_actor_as_it_is() {
    // Row 2 is a wall from edge to edge: the actor's region holds tiles on
    // both sides of it, yet no route leads across.
    let mut tiles = vec![vec![0u32; 8]; 6];
    tiles[2] = vec![1; 8];
    let map = LevelMap {
        width: 8,
        height: 6,
        tile_width: 16,
        tile_height: 16,
        layers: vec![Layer { name: "ground".to_string(), tiles }],
    };
    let mut w = world(&map, (0, 4));
    let mut region: TileMapping<usize> = TileMapping::new();
    region.insert(4, vec![0]);
    region.insert(0, vec![7]);
    w.data.walkable_groups = vec![region];
    w.data.player_group_index = 0;
    assert_eq!(w.player.energy, 10);

    tick(&mut w, &cursor((7, 0), true));
    assert!(w.player.action_state == PlayerActionState::OnGround);
    assert!(w.player.movement_route.is_empty());
    assert_eq!(w.player.energy, 10);
    assert_eq!(w.position, w.data.world_position((0, 4)));
    assert!(!w.highlight.visible);
    assert!(w
        .system
        .option_for(&cursor((7, 0), true), &w.state, &w.player, &w.position, &w.data)
        .is_none());
    assert!(w
        .system
        .astar_path_to_mouse(&w.position, &w.data, (7, 0))
        .is_empty());
}

#[test]
fn a_far_tile_across_the_platforms_leaves_the_actor_as_it_is() {
    let mut w = world(&platforms(), (0, 4));
    tick(&mut w, &cursor((7, 0), true));
    assert!(w.player.action_state == PlayerActionState::OnGround);
    assert!(w.player.movement_route.is_empty());
    assert_eq!(w.player.energy, 10);
}

#[test]
fn the_last_unit_of_energy_ends_the_turn() {
    let mut w = world(&platforms(), (0, 0));
    w.player.energy = 1;
    tick(&mut w, &cursor((1, 0), false));
    assert!(w.highlight.visible);
    tick(&mut w, &cursor((1, 0), true));
    assert!(w.player.action_state == PlayerActionState::Moving);
    assert_eq!(w.player.energy, 0);
    assert!(w.highlight.visible);
    let mut turns = ProcessTurn;
    assert!(turns.run(&mut w.state, &w.player, &mut w.highlight));
    assert_eq!(w.state.turn, Turn::Enemy);
    assert!(!w.highlight.visible);

    // the walk still ends, but nothing new is taken up or shown
    let again = cursor((3, 0), true);
    tick(&mut w, &again);
    tick(&mut w, &again);
    assert!(w.player.action_state == PlayerActionState::OnGround);
    tick(&mut w, &again);
    assert!(w.player.action_state == PlayerActionState::OnGround);
    assert!(w.player.movement_route.is_empty());
    assert!(!w.highlight.visible);
    assert!(!turns.run(&mut w.state, &w.player, &mut w.highlight));
    assert_eq!(w.state.turn, Turn::Enemy);
}

#[test]
fn the_turn_ends_once_when_energy_first_reaches_zero() {
    let mut state = GameState::new();
    let mut player = Player::new();
    let mut highlight = Sprite { frame_name: "tile.png".to_string(), visible: true };
    let mut turns = ProcessTurn;
    let mut ended = Vec::new();
    for cost in [4usize, 0, 5, 3, 2, 0] {
        player.take_energy(cost);
        ended.push(turns.run(&mut state, &player, &mut highlight));
    }
    assert_eq!(ended, vec![false, false, false, true, false, false]);
    assert_eq!(state.turn, Turn::Enemy);
    assert!(!highlight.visible);
}

#[test]
fn the_turn_stays_while_energy_is_left() {
    let mut state = GameState::new();
    let player = Player::new();
    let mut highlight = Sprite { frame_name: "tile.png".to_string(), visible: true };
    assert!(!ProcessTurn.run(&mut state, &player, &mut highlight));
    assert_eq!(state.turn, Turn::Player);
    assert!(highlight.visible);
    assert_eq!(highlight.frame_name, "tile.png");
}

#[test]
fn the_highlight_shows_where_the_actor_could_go() {
    let mut w = world(&platforms(), (0, 0));
    tick(&mut w, &cursor((4, 0), false));
    assert!(w.highlight.visible);
    assert_eq!(w.highlight_at, Position { x: 64, y: 80 });
    assert!(w.player.action_state == PlayerActionState::OnGround);
    assert_eq!(w.player.energy, 10);

    tick(&mut w, &cursor((6, 1), false));
    assert!(w.highlight.visible);
    assert_eq!(w.highlight_at, Position { x: 96, y: 64 });

    tick(&mut w, &cursor((0, 1), false));
    assert!(!w.highlight.visible);
    assert_eq!(w.highlight_at, Position { x: 96, y: 64 });

    tick(&mut w, &cursor((0, 3), false));
    assert!(!w.highlight.visible);

    let mut outside = Input::new();
    outside.mouse_pos = (500, 10);
    tick(&mut w, &outside);
    assert!(!w.highlight.visible);
}

#[test]
fn the_highlight_goes_by_the_cursor_whether_or_not_the_move_is_confirmed() {
    for pressed in [false, true] {
        // a tile of the actor's own region
        let mut w = world(&platforms(), (0, 0));
        tick(&mut w, &cursor((4, 0), pressed));
        assert!(w.highlight.visible);
        assert_eq!(w.highlight_at, Position { x: 64, y: 80 });
        assert_eq!(w.player.moving(), pressed);

        // a jump target in reach
        let mut w = world(&platforms(), (5, 0));
        tick(&mut w, &cursor((6, 1), pressed));
        assert!(w.highlight.visible);
        assert_eq!(w.highlight_at, Position { x: 96, y: 64 });
        assert_eq!(w.player.jumping(), pressed);

        // from the air, a tile of another region in reach
        let mut w = world(&platforms(), (7, 2));
        w.player.action_state = PlayerActionState::InAir;
        tick(&mut w, &cursor((7, 3), pressed));
        assert!(w.highlight.visible);
        assert_eq!(w.highlight_at, Position { x: 112, y: 32 });
        assert_eq!(w.player.moving(), pressed);

        // no destination: neither shown nor taken up
        let mut w = world(&platforms(), (0, 0));
        tick(&mut w, &cursor((0, 3), pressed));
        assert!(!w.highlight.visible);
        assert_eq!(w.highlight_at, Position { x: 0, y: 0 });
        assert!(w.player.action_state == PlayerActionState::OnGround);
    }
}

#[test]
fn the_highlight_is_hidden_while_the_actor_is_on_its_way() {
    let mut w = world(&platforms(), (0, 0));
    tick(&mut w, &cursor((1, 0), true));
    assert!(w.highlight.visible);
    let elsewhere = cursor((4, 0), false);
    // the tick finds the actor walking, then with its route used up
    tick(&mut w, &elsewhere);
    assert!(!w.highlight.visible);
    tick(&mut w, &elsewhere);
    assert!(!w.highlight.visible);
    assert!(w.player.action_state == PlayerActionState::OnGround);
    // at rest again
    tick(&mut w, &elsewhere);
    assert!(w.highlight.visible);
    assert_eq!(w.highlight_at, Position { x: 64, y: 80 });
}

#[test]
fn the_highlight_can_be_placed_on_a_tile() {
    let w = world(&platforms(), (0, 0));
    let mut sprite = Sprite { frame_name: "tile.png".to_string(), visible: false };
    let mut at = Position { x: 1, y: 1 };
    w.system.move_highlight_to_mouse(&(3, 2), &mut at, &w.data, &mut sprite);
    assert!(sprite.visible);
    assert_eq!(at, Position { x: 48, y: 48 });
}

#[test]
fn the_plan_names_the_action_and_its_route() {
    let w = world(&platforms(), (0, 0));
    let walk = w
        .system
        .option_for(&cursor((2, 0), false), &w.state, &w.player, &w.position, &w.data);
    assert_eq!(walk, Some((Action::Walk(0), vec![(1, 0), (2, 0)])));
    let jump = w
        .system
        .option_for(&cursor((6, 0), false), &w.state, &w.player, &w.position, &w.data);
    assert_eq!(jump, Some((Action::Jump, vec![(6, 0)])));
    assert_eq!(
        w.system.astar_path_to_mouse(&w.position, &w.data, (2, 0)),
        vec![(1, 0), (2, 0)]
    );
}

#[test]
fn an_unresolved_region_fails_closed() {
    let mut w = world(&platforms(), (0, 0));
    w.data.player_group_index = 9;
    tick(&mut w, &cursor((3, 0), true));
    assert!(w.player.action_state == PlayerActionState::OnGround);
    assert_eq!(w.player.energy, 10);
    assert!(!w.highlight.visible);
    assert_eq!(w.system.pathable_grid[1][0], TileType::Unpassable);
}

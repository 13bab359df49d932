use crate::components::player::energy_after;
use crate::components::tile_data::{lemma_region_index, region_index};
use crate::components::{GameState, Input, Player, PlayerActionState, Sprite, TileData};
use crate::math::astar::{find_path, grid_wf, in_grid, is_route, TileType};
use crate::types::{Position, Turn};
use crate::utils::movement::{distance_to_tile, tile_distance};
use vstd::prelude::*;

verus! {

/// Moves the actor: takes up confirmed destinations, walks the actor along
/// its route tile by tile, and shows where it could go.
pub struct PlayerMovement {
    pub pathable_grid: Vec<Vec<TileType>>,
}

/// What a confirmed destination starts: a walk within the region of the given
/// index, or a jump.
#[derive(Clone, Copy, Debug, PartialEq, Eq, Structural)]
pub enum Action {
    Walk(usize),
    Jump,
}

/// Rust's division of a dividend by a positive divisor, which rounds toward
/// zero.
pub open spec fn toward_zero(a: int, b: int) -> int {
    if a >= 0 {
        a / b
    } else {
        -((-a) / b)
    }
}

/// The tile under the cursor, counted from the left and top edges of the
/// level, if the cursor is not left of or above the level.
pub open spec fn cursor_tile(mouse_pos: (i32, i32), tile_data: TileData) -> Option<(usize, usize)> {
    if mouse_pos.0 >= 0 && mouse_pos.1 >= 0 {
        Some(
            (
                (mouse_pos.0 as int / tile_data.tile_size[0] as int) as usize,
                (mouse_pos.1 as int / tile_data.tile_size[1] as int) as usize,
            ),
        )
    } else {
        None
    }
}

/// `tile` is no farther from `from` than the actor can jump.  The distance
/// counts the steps along both axes.
pub open spec fn within_jump(player: Player, from: (usize, usize), tile: (usize, usize)) -> bool {
    tile_distance(from, tile, true) <= player.jump_distance
}

/// What an actor that stands on `from` may start towards `tile`, by its
/// state alone:
/// - in the air, a walk to a tile of any region within jump distance, which
///   becomes the actor's region;
/// - on the ground, a walk to a tile of its own region;
/// - failing these, a jump to a jump target within jump distance.
/// The tile lies within the level and is not the one the actor stands on.
pub open spec fn destination(
    player: Player,
    tile_data: TileData,
    from: (usize, usize),
    tile: (usize, usize),
) -> Option<Action> {
    let airborne = player.action_state == PlayerActionState::InAir;
    let grounded = player.action_state == PlayerActionState::OnGround;
    let region = region_index(tile_data.walkable_groups@, tile);
    if !tile_data.in_map(tile) || tile == from || !(airborne || grounded) {
        None
    } else if airborne && within_jump(player, from, tile) && region.is_some() {
        Some(Action::Walk(region.unwrap() as usize))
    } else if grounded && tile_data.current_region().is_some()
        && tile_data.current_region().unwrap().has(tile.1, tile.0) {
        Some(Action::Walk(tile_data.player_group_index))
    } else if tile_data.jump_targets.has(tile.1, tile.0) && within_jump(player, from, tile) {
        Some(Action::Jump)
    } else {
        None
    }
}

/// Some route leads from `from` to `tile`.
pub open spec fn reachable(
    tiles: Seq<Vec<TileType>>,
    from: (usize, usize),
    tile: (usize, usize),
) -> bool {
    exists|route: Seq<(usize, usize)>| is_route(tiles, from, tile, route)
}

/// `route` leads from `from` to `tile` and no route is shorter.
pub open spec fn shortest_route(
    tiles: Seq<Vec<TileType>>,
    from: (usize, usize),
    tile: (usize, usize),
    route: Seq<(usize, usize)>,
) -> bool {
    &&& is_route(tiles, from, tile, route)
    &&& forall|other: Seq<(usize, usize)>| #[trigger]
        is_route(tiles, from, tile, other) ==> route.len() <= other.len()
}

/// Every cell of the route lies within the level.
pub open spec fn route_in_map(route: Seq<(usize, usize)>, tile_data: TileData) -> bool {
    forall|i: int| 0 <= i < route.len() ==> tile_data.in_map(#[trigger] route[i])
}

/// What the actor can do about the cursor in this state of the game: the
/// action that `destination` allows from the actor's tile to the tile under
/// the cursor, on the player's turn, if the actor stands within the level and
/// a walk has a route to follow.
pub open spec fn option_at(
    tiles: Seq<Vec<TileType>>,
    turn: Turn,
    player: Player,
    tile_data: TileData,
    position: Position,
    mouse_pos: (i32, i32),
) -> Option<Action> {
    let from = tile_data.tile_at(position);
    let tile = cursor_tile(mouse_pos, tile_data);
    if turn == Turn::Player && from.is_some() && tile.is_some() {
        match destination(player, tile_data, from.unwrap(), tile.unwrap()) {
            Some(Action::Walk(i)) => if reachable(tiles, from.unwrap(), tile.unwrap()) {
                Some(Action::Walk(i))
            } else {
                None
            },
            Some(Action::Jump) => Some(Action::Jump),
            None => None,
        }
    } else {
        None
    }
}

/// Nothing about the actor has changed.
pub open spec fn unchanged(
    before: Player,
    data_before: TileData,
    at_before: Position,
    after: Player,
    data_after: TileData,
    at_after: Position,
) -> bool {
    &&& after.action_state == before.action_state
    &&& after.movement_route@ == before.movement_route@
    &&& after.energy == before.energy
    &&& data_after.player_group_index == data_before.player_group_index
    &&& at_after == at_before
}

/// The actor has taken up `action` towards `tile`: it pays one unit of
/// energy and is on its way, walking a shortest route into the region of the
/// walk or jumping straight onto the tile.
pub open spec fn started(
    tiles: Seq<Vec<TileType>>,
    action: Action,
    from: (usize, usize),
    tile: (usize, usize),
    before: Player,
    data_before: TileData,
    at_before: Position,
    after: Player,
    data_after: TileData,
    at_after: Position,
) -> bool {
    &&& at_after == at_before
    &&& after.energy == energy_after(before.energy, 1)
    &&& match action {
        Action::Walk(region) => {
            &&& after.action_state == PlayerActionState::Moving
            &&& shortest_route(tiles, from, tile, after.movement_route@)
            &&& data_after.player_group_index == region
        },
        Action::Jump => {
            &&& after.action_state == PlayerActionState::Jumping
            &&& after.movement_route@ == seq![tile]
            &&& data_after.player_group_index == data_before.player_group_index
        },
    }
}

/// The actor has moved onto the next cell of its route.
pub open spec fn advanced(
    before: Player,
    data_before: TileData,
    after: Player,
    data_after: TileData,
    at_after: Position,
) -> bool {
    &&& before.movement_route@.len() > 0
    &&& at_after == data_before.world_of(before.movement_route@[0])
    &&& after.movement_route@ == before.movement_route@.drop_first()
    &&& after.action_state == before.action_state
    &&& after.energy == before.energy
    &&& data_after.player_group_index == data_before.player_group_index
}

/// The actor has come to the end of its route: a walk ends on the ground, a
/// jump in the air, and after a jump the actor's region is the first one that
/// holds the tile it is on, if any does.
pub open spec fn landed(
    before: Player,
    data_before: TileData,
    at_before: Position,
    after: Player,
    data_after: TileData,
    at_after: Position,
) -> bool {
    &&& at_after == at_before
    &&& after.movement_route@.len() == 0
    &&& after.energy == before.energy
    &&& if before.action_state == PlayerActionState::Moving {
        &&& after.action_state == PlayerActionState::OnGround
        &&& data_after.player_group_index == data_before.player_group_index
    } else {
        &&& after.action_state == PlayerActionState::InAir
        &&& data_after.player_group_index == match data_before.tile_at(at_before) {
            Some(tile) => match region_index(data_before.walkable_groups@, tile) {
                Some(i) => i as usize,
                None => data_before.player_group_index,
            },
            None => data_before.player_group_index,
        }
    }
}

/// One tick of the actor's movement.  An actor on its way takes the next
/// cell of its route, or ends its walk or jump when none is left.  An actor
/// at rest takes up what a confirmed cursor allows, and is otherwise left as
/// it is.
pub open spec fn moved(
    tiles: Seq<Vec<TileType>>,
    turn: Turn,
    input: Input,
    before: Player,
    data_before: TileData,
    at_before: Position,
    after: Player,
    data_after: TileData,
    at_after: Position,
) -> bool {
    &&& data_after.walkable_groups == data_before.walkable_groups
    &&& data_after.jump_targets == data_before.jump_targets
    &&& data_after.map_size == data_before.map_size
    &&& data_after.map_dimensions == data_before.map_dimensions
    &&& data_after.tile_size == data_before.tile_size
    &&& after.jump_distance == before.jump_distance
    &&& route_in_map(after.movement_route@, data_after)
    &&& if in_flight(before) {
        if before.movement_route@.len() > 0 {
            advanced(before, data_before, after, data_after, at_after)
        } else {
            landed(before, data_before, at_before, after, data_after, at_after)
        }
    } else if input.mouse_pressed {
        match option_at(tiles, turn, before, data_before, at_before, input.mouse_pos) {
            Some(action) => started(
                tiles,
                action,
                data_before.tile_at(at_before).unwrap(),
                cursor_tile(input.mouse_pos, data_before).unwrap(),
                before,
                data_before,
                at_before,
                after,
                data_after,
                at_after,
            ),
            None => unchanged(before, data_before, at_before, after, data_after, at_after),
        }
    } else {
        unchanged(before, data_before, at_before, after, data_after, at_after)
    }
}

/// The actor is on its way and cannot be redirected.
pub open spec fn in_flight(player: Player) -> bool {
    player.action_state == PlayerActionState::Moving || player.action_state
        == PlayerActionState::Jumping
}

impl PlayerMovement {
    /// The grid is rectangular and no larger than the level.
    pub open spec fn fits(&self, tile_data: TileData) -> bool {
        &&& grid_wf(self.pathable_grid@)
        &&& forall|p: (usize, usize)| #[trigger]
            in_grid(self.pathable_grid@, p) ==> tile_data.in_map(p)
    }

    /// The tile that a pixel position measured from the left and top edges
    /// falls into.
    pub fn get_mouse_tile(&self, mouse_pos: &(i32, i32), tile_size: &[i32; 2]) -> (tile: (i32, i32))
        requires
            tile_size[0] > 0,
            tile_size[1] > 0,
        ensures
            tile.0 == toward_zero(mouse_pos.0 as int, tile_size[0] as int),
            tile.1 == toward_zero(mouse_pos.1 as int, tile_size[1] as int),
    {
        (mouse_pos.0 / tile_size[0], mouse_pos.1 / tile_size[1])
    }

    /// The tile under the cursor, if the cursor is not left of or above the
    /// level.
    pub fn cursor_tile_of(&self, input: &Input, tile_data: &TileData) -> (tile: Option<
        (usize, usize),
    >)
        requires
            tile_data.wf(),
        ensures
            tile == cursor_tile(input.mouse_pos, *tile_data),
    {
        if input.mouse_pos.0 < 0 || input.mouse_pos.1 < 0 {
            return None;
        }
        let mouse_tile = self.get_mouse_tile(&input.mouse_pos, &tile_data.tile_size);
        proof {
            let tw = tile_data.tile_size[0] as int;
            let th = tile_data.tile_size[1] as int;
            let mx = input.mouse_pos.0 as int;
            let my = input.mouse_pos.1 as int;
            assert(0 <= mx / tw <= mx) by (nonlinear_arith)
                requires
                    0 <= mx,
                    tw > 0,
            ;
            assert(0 <= my / th <= my) by (nonlinear_arith)
                requires
                    0 <= my,
                    th > 0,
            ;
        }
        Some((mouse_tile.0 as usize, mouse_tile.1 as usize))
    }

    /// Shows the highlight on `mouse_tile`.
    pub fn move_highlight_to_mouse(
        &self,
        mouse_tile: &(usize, usize),
        position: &mut Position,
        tile_data: &TileData,
        sprite: &mut Sprite,
    )
        requires
            tile_data.wf(),
            tile_data.in_map(*mouse_tile),
        ensures
            final(sprite).visible,
            final(sprite).frame_name == old(sprite).frame_name,
            *final(position) == tile_data.world_of(*mouse_tile),
    {
        sprite.visible = true;
        let at = tile_data.world_position(*mouse_tile);
        position.x = at.x;
        position.y = at.y;
    }

    /// A shortest route from the tile at `position` to `mouse_tile`; empty if
    /// the position lies outside the level, if it is on `mouse_tile` already,
    /// or if no route leads there.
    pub fn astar_path_to_mouse(
        &self,
        position: &Position,
        tile_data: &TileData,
        mouse_tile: (usize, usize),
    ) -> (route: Vec<(usize, usize)>)
        requires
            tile_data.wf(),
            grid_wf(self.pathable_grid@),
        ensures
            match tile_data.tile_at(*position) {
                Some(from) => if from != mouse_tile && reachable(
                    self.pathable_grid@,
                    from,
                    mouse_tile,
                ) {
                    shortest_route(self.pathable_grid@, from, mouse_tile, route@)
                } else {
                    route@.len() == 0
                },
                None => route@.len() == 0,
            },
    {
        match tile_data.tile_for_position(position) {
            Some(player_tile) => {
                let route = find_path(&self.pathable_grid, player_tile, mouse_tile);
                proof {
                    if route@.len() > 0 {
                        assert(is_route(self.pathable_grid@, player_tile, mouse_tile, route@));
                    }
                }
                route
            },
            None => Vec::new(),
        }
    }

    /// What the actor can do about the cursor, with the route to take: a
    /// shortest route for a walk, the target alone for a jump.
    pub fn option_for(
        &self,
        input: &Input,
        game_state: &GameState,
        player: &Player,
        position: &Position,
        tile_data: &TileData,
    ) -> (plan: Option<(Action, Vec<(usize, usize)>)>)
        requires
            tile_data.wf(),
            self.fits(*tile_data),
        ensures
            match plan {
                Some((action, route)) => {
                    let from = tile_data.tile_at(*position).unwrap();
                    let tile = cursor_tile(input.mouse_pos, *tile_data).unwrap();
                    &&& option_at(
                        self.pathable_grid@,
                        game_state.turn,
                        *player,
                        *tile_data,
                        *position,
                        input.mouse_pos,
                    ) == Some(action)
                    &&& tile_data.in_map(tile)
                    &&& route_in_map(route@, *tile_data)
                    &&& match action {
                        Action::Walk(_) => shortest_route(self.pathable_grid@, from, tile, route@),
                        Action::Jump => route@ == seq![tile],
                    }
                },
                None => option_at(
                    self.pathable_grid@,
                    game_state.turn,
                    *player,
                    *tile_data,
                    *position,
                    input.mouse_pos,
                ).is_none(),
            },
    {
        match game_state.turn {
            Turn::Player => {},
            Turn::Enemy => {
                return None;
            },
        }
        let from = match tile_data.tile_for_position(position) {
            Some(tile) => tile,
            None => {
                return None;
            },
        };
        let tile = match self.cursor_tile_of(input, tile_data) {
            Some(tile) => tile,
            None => {
                return None;
            },
        };
        if tile.0 >= tile_data.map_size[0] as usize || tile.1 >= tile_data.map_size[1] as usize {
            return None;
        }
        if tile.0 == from.0 && tile.1 == from.1 {
            return None;
        }
        let airborne = player.in_air();
        let grounded = player.action_state == PlayerActionState::OnGround;
        if !airborne && !grounded {
            return None;
        }
        let within = distance_to_tile(&from, &tile, true) <= player.jump_distance;
        assert(within == within_jump(*player, from, tile));
        let mut walk: Option<usize> = None;
        if airborne && within {
            walk = tile_data.region_of(tile);
        }
        if walk.is_none() && grounded && tile_data.player_group_index
            < tile_data.walkable_groups.len() {
            if tile_data.walkable_groups[tile_data.player_group_index].contains(&tile.1, &tile.0) {
                walk = Some(tile_data.player_group_index);
            }
        }
        match walk {
            Some(region) => {
                let route = find_path(&self.pathable_grid, from, tile);
                if route.len() == 0 {
                    return None;
                }
                proof {
                    assert(is_route(self.pathable_grid@, from, tile, route@));
                    assert forall|i: int| 0 <= i < route@.len() implies tile_data.in_map(
                        #[trigger] route@[i],
                    ) by {
                        assert(in_grid(self.pathable_grid@, route@[i]));
                    }
                }
                Some((Action::Walk(region), route))
            },
            None => {
                if tile_data.jump_targets.contains(&tile.1, &tile.0) && within {
                    let mut route: Vec<(usize, usize)> = Vec::new();
                    route.push(tile);
                    assert(route@ =~= seq![tile]);
                    Some((Action::Jump, route))
                } else {
                    None
                }
            },
        }
    }

    /// One tick of the actor's movement.
    pub fn move_player(
        &self,
        input: &Input,
        game_state: &GameState,
        player: &mut Player,
        position: &mut Position,
        tile_data: &mut TileData,
    )
        requires
            old(tile_data).wf(),
            self.fits(*old(tile_data)),
            route_in_map(old(player).movement_route@, *old(tile_data)),
        ensures
            final(tile_data).wf(),
            moved(
                self.pathable_grid@,
                game_state.turn,
                *input,
                *old(player),
                *old(tile_data),
                *old(position),
                *final(player),
                *final(tile_data),
                *final(position),
            ),
    {
        if player.moving() || player.jumping() {
            if player.movement_route.len() > 0 {
                let next_pos = player.movement_route[0];
                assert(tile_data.in_map(player.movement_route@[0]));
                let at = tile_data.world_position(next_pos);
                position.x = at.x;
                position.y = at.y;
                player.movement_route.remove(0);
                assert(player.movement_route@ =~= old(player).movement_route@.drop_first());
                assert forall|i: int| 0 <= i < player.movement_route@.len() implies tile_data.in_map(
                    #[trigger] player.movement_route@[i],
                ) by {
                    assert(player.movement_route@[i] == old(player).movement_route@[i + 1]);
                }
            } else if player.moving() {
                player.action_state = PlayerActionState::OnGround;
            } else {
                player.action_state = PlayerActionState::InAir;
                proof {
                    lemma_region_index(
                        tile_data.walkable_groups@,
                        match tile_data.tile_at(*position) {
                            Some(tile) => tile,
                            None => (0, 0),
                        },
                    );
                }
                tile_data.set_player_group_index_from_pos(position);
            }
        } else if input.mouse_pressed {
            match self.option_for(input, game_state, player, position, tile_data) {
                Some((action, route)) => {
                    match action {
                        Action::Walk(region) => {
                            player.action_state = PlayerActionState::Moving;
                            tile_data.player_group_index = region;
                        },
                        Action::Jump => {
                            player.action_state = PlayerActionState::Jumping;
                        },
                    }
                    player.movement_route = route;
                    player.take_energy(1);
                },
                None => {},
            }
        }
    }

    /// Shows the highlight under the cursor exactly when the actor, in the
    /// state it is given in, could go there, and hides it otherwise.  Whether
    /// the move is confirmed plays no part.
    pub fn show_highlight(
        &self,
        input: &Input,
        game_state: &GameState,
        player: &Player,
        position: &Position,
        tile_data: &TileData,
        sprite: &mut Sprite,
        highlight_position: &mut Position,
    )
        requires
            tile_data.wf(),
            self.fits(*tile_data),
        ensures
            final(sprite).frame_name == old(sprite).frame_name,
            final(sprite).visible == option_at(
                self.pathable_grid@,
                game_state.turn,
                *player,
                *tile_data,
                *position,
                input.mouse_pos,
            ).is_some(),
            *final(highlight_position) == if final(sprite).visible {
                tile_data.world_of(cursor_tile(input.mouse_pos, *tile_data).unwrap())
            } else {
                *old(highlight_position)
            },
    {
        sprite.visible = false;
        match self.option_for(input, game_state, player, position, tile_data) {
            Some(_) => {
                let mouse_tile = self.cursor_tile_of(input, tile_data).unwrap();
                self.move_highlight_to_mouse(&mouse_tile, highlight_position, tile_data, sprite);
            },
            None => {},
        }
    }

    /// One tick: places the highlight for the state that the tick finds the
    /// actor in, then moves the actor.  The highlight goes by the cursor
    /// alone, so the tick that takes up a confirmed destination still shows
    /// it.
    pub fn run(
        &mut self,
        input: &Input,
        game_state: &GameState,
        player: &mut Player,
        position: &mut Position,
        tile_data: &mut TileData,
        sprite: &mut Sprite,
        highlight_position: &mut Position,
    )
        requires
            old(tile_data).wf(),
            old(self).fits(*old(tile_data)),
            route_in_map(old(player).movement_route@, *old(tile_data)),
        ensures
            final(self).pathable_grid == old(self).pathable_grid,
            final(tile_data).wf(),
            final(self).fits(*final(tile_data)),
            moved(
                old(self).pathable_grid@,
                game_state.turn,
                *input,
                *old(player),
                *old(tile_data),
                *old(position),
                *final(player),
                *final(tile_data),
                *final(position),
            ),
            final(sprite).frame_name == old(sprite).frame_name,
            final(sprite).visible == option_at(
                old(self).pathable_grid@,
                game_state.turn,
                *old(player),
                *old(tile_data),
                *old(position),
                input.mouse_pos,
            ).is_some(),
            *final(highlight_position) == if final(sprite).visible {
                old(tile_data).world_of(cursor_tile(input.mouse_pos, *old(tile_data)).unwrap())
            } else {
                *old(highlight_position)
            },
    {
        self.show_highlight(
            input,
            game_state,
            player,
            position,
            tile_data,
            sprite,
            highlight_position,
        );
        self.move_player(input, game_state, player, position, tile_data);
    }
}

} // verus!

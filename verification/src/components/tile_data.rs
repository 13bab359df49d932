use crate::types::{LevelMap, Position, TileMapping};
use vstd::prelude::*;

verus! {

/// The geometry of the loaded level: its walkable regions and jump targets,
/// its size, and the region that the actor stands in.
///
/// Sizes are given as `[horizontal, vertical]`: `map_size` in tiles,
/// `tile_size` and `map_dimensions` in pixels.
#[derive(Debug)]
pub struct TileData {
    pub walkable_groups: Vec<TileMapping<usize>>,
    pub map_size: [i32; 2],
    pub map_dimensions: [i32; 2],
    pub tile_size: [i32; 2],
    pub player_group_index: usize,
    pub jump_targets: TileMapping<usize>,
}

/// Region `i` is the first of `groups` that holds `tile`, given as
/// `(column, row)`.
pub open spec fn first_holding(groups: Seq<TileMapping<usize>>, tile: (usize, usize), i: int) -> bool {
    &&& 0 <= i < groups.len()
    &&& groups[i].has(tile.1, tile.0)
    &&& forall|j: int| 0 <= j < i ==> !(#[trigger] groups[j]).has(tile.1, tile.0)
}

/// None of `groups` holds `tile`.
pub open spec fn none_holding(groups: Seq<TileMapping<usize>>, tile: (usize, usize)) -> bool {
    forall|j: int| 0 <= j < groups.len() ==> !(#[trigger] groups[j]).has(tile.1, tile.0)
}

/// The index of the first of `groups` that holds `tile`, if any does.
pub open spec fn region_index(groups: Seq<TileMapping<usize>>, tile: (usize, usize)) -> Option<
    int,
> {
    if exists|i: int| first_holding(groups, tile, i) {
        Some(choose|i: int| first_holding(groups, tile, i))
    } else {
        None
    }
}

/// At most one region is the first to hold a tile.
pub proof fn lemma_region_index(groups: Seq<TileMapping<usize>>, tile: (usize, usize))
    ensures
        forall|i: int| first_holding(groups, tile, i) ==> region_index(groups, tile) == Some(i),
        none_holding(groups, tile) ==> region_index(groups, tile).is_none(),
{
    assert forall|i: int| first_holding(groups, tile, i) implies region_index(groups, tile)
        == Some(i) by {
        let k = choose|k: int| first_holding(groups, tile, k);
        if k < i {
            assert(!groups[k].has(tile.1, tile.0));
        } else if i < k {
            assert(!groups[i].has(tile.1, tile.0));
        }
    }
    if none_holding(groups, tile) && region_index(groups, tile).is_some() {
        let k = choose|k: int| first_holding(groups, tile, k);
        assert(!groups[k].has(tile.1, tile.0));
    }
}

impl TileData {
    /// Tiles have a size, the level has none that is negative, and its size
    /// in pixels is its size in tiles times the size of a tile.
    pub open spec fn wf(&self) -> bool {
        &&& self.tile_size[0] > 0
        &&& self.tile_size[1] > 0
        &&& self.map_size[0] >= 0
        &&& self.map_size[1] >= 0
        &&& self.map_dimensions[0] == self.map_size[0] * self.tile_size[0]
        &&& self.map_dimensions[1] == self.map_size[1] * self.tile_size[1]
    }

    /// The tile `(column, row)` lies within the level.
    pub open spec fn in_map(&self, tile: (usize, usize)) -> bool {
        tile.0 < self.map_size[0] && tile.1 < self.map_size[1]
    }

    /// The tile of an actor whose lower left corner is at `pos`, if that lies
    /// within the level.  Rows count from the top of the level, world
    /// positions from its bottom; a corner between two columns counts for the
    /// left one, a corner between two rows for the upper one.
    pub open spec fn tile_at(&self, pos: Position) -> Option<(usize, usize)> {
        if 0 <= pos.x < self.map_dimensions[0] && 0 <= pos.y <= self.map_dimensions[1]
            - self.tile_size[1] {
            Some(
                (
                    (pos.x as int / self.tile_size[0] as int) as usize,
                    ((self.map_dimensions[1] - pos.y - self.tile_size[1])
                        / (self.tile_size[1] as int)) as usize,
                ),
            )
        } else {
            None
        }
    }

    /// The world position of the lower left corner of `tile`.
    pub open spec fn world_of(&self, tile: (usize, usize)) -> Position {
        Position {
            x: (tile.0 * self.tile_size[0]) as i32,
            y: (self.map_dimensions[1] - tile.1 * self.tile_size[1] - self.tile_size[1]) as i32,
        }
    }

    /// The region that the actor stands in, if the recorded index names one.
    pub open spec fn current_region(&self) -> Option<TileMapping<usize>> {
        if self.player_group_index < self.walkable_groups@.len() {
            Some(self.walkable_groups@[self.player_group_index as int])
        } else {
            None
        }
    }

    /// Takes over the regions and jump targets of a level together with its
    /// sizes.  The actor is taken to stand in the first region until its
    /// position is resolved.
    pub fn new(
        walkable_groups: Vec<TileMapping<usize>>,
        map: &LevelMap,
        jump_targets: TileMapping<usize>,
    ) -> (data: TileData)
        requires
            map.width * map.tile_width <= i32::MAX,
            map.height * map.tile_height <= i32::MAX,
            map.width <= i32::MAX,
            map.height <= i32::MAX,
            map.tile_width <= i32::MAX,
            map.tile_height <= i32::MAX,
        ensures
            data.walkable_groups == walkable_groups,
            data.jump_targets == jump_targets,
            data.map_size[0] == map.width,
            data.map_size[1] == map.height,
            data.tile_size[0] == map.tile_width,
            data.tile_size[1] == map.tile_height,
            data.map_dimensions[0] == map.width * map.tile_width,
            data.map_dimensions[1] == map.height * map.tile_height,
            data.player_group_index == 0,
            map.tile_width > 0 && map.tile_height > 0 ==> data.wf(),
    {
        TileData {
            walkable_groups: walkable_groups,
            map_size: [map.width as i32, map.height as i32],
            map_dimensions: [
                (map.width * map.tile_width) as i32,
                (map.height * map.tile_height) as i32,
            ],
            tile_size: [map.tile_width as i32, map.tile_height as i32],
            player_group_index: 0,
            jump_targets: jump_targets,
        }
    }

    /// The first region that holds `tile`, given as `(column, row)`.
    pub fn region_of(&self, tile: (usize, usize)) -> (found: Option<usize>)
        ensures
            match found {
                Some(i) => first_holding(self.walkable_groups@, tile, i as int),
                None => none_holding(self.walkable_groups@, tile),
            },
            match found {
                Some(i) => region_index(self.walkable_groups@, tile) == Some(i as int),
                None => region_index(self.walkable_groups@, tile).is_none(),
            },
    {
        proof {
            lemma_region_index(self.walkable_groups@, tile);
        }
        let mut i: usize = 0;
        while i < self.walkable_groups.len()
            invariant
                i <= self.walkable_groups@.len(),
                forall|j: int| 0 <= j < i ==> !(#[trigger] self.walkable_groups@[j]).has(tile.1, tile.0),
            decreases self.walkable_groups.len() - i,
        {
            if self.walkable_groups[i].contains(&tile.1, &tile.0) {
                return Some(i);
            }
            i += 1;
        }
        None
    }

    /// The tile at a world position, if the position lies within the level.
    pub fn tile_for_position(&self, position: &Position) -> (tile: Option<(usize, usize)>)
        requires
            self.wf(),
        ensures
            tile == self.tile_at(*position),
            tile.is_some() ==> self.in_map(tile.unwrap()),
    {
        if position.x < 0 || position.x >= self.map_dimensions[0] || position.y < 0 {
            return None;
        }
        if position.y > self.map_dimensions[1] - self.tile_size[1] {
            return None;
        }
        let tile_x = position.x / self.tile_size[0];
        let tile_y = (self.map_dimensions[1] - position.y - self.tile_size[1]) / self.tile_size[1];
        proof {
            let tw = self.tile_size[0] as int;
            let th = self.tile_size[1] as int;
            let w = self.map_size[0] as int;
            let h = self.map_size[1] as int;
            let x = position.x as int;
            let up = self.map_dimensions[1] - position.y - self.tile_size[1];
            assert(x / tw < w) by (nonlinear_arith)
                requires
                    0 <= x < w * tw,
                    tw > 0,
            ;
            assert(0 <= x / tw) by (nonlinear_arith)
                requires
                    0 <= x,
                    tw > 0,
            ;
            assert(up / th < h) by (nonlinear_arith)
                requires
                    0 <= up <= h * th - th,
                    th > 0,
            ;
            assert(0 <= up / th) by (nonlinear_arith)
                requires
                    0 <= up,
                    th > 0,
            ;
        }
        Some((tile_x as usize, tile_y as usize))
    }

    /// The tile at a world position that lies within the level.
    pub fn get_tile_for_world_position(&self, position: &Position) -> (tile: (usize, usize))
        requires
            self.wf(),
            self.tile_at(*position).is_some(),
        ensures
            Some(tile) == self.tile_at(*position),
            self.in_map(tile),
    {
        self.tile_for_position(position).unwrap()
    }

    /// The world position of the lower left corner of a tile of the level.
    pub fn world_position(&self, tile: (usize, usize)) -> (position: Position)
        requires
            self.wf(),
            self.in_map(tile),
        ensures
            position == self.world_of(tile),
            self.tile_at(position) == Some(tile),
    {
        proof {
            let tw = self.tile_size[0] as int;
            let th = self.tile_size[1] as int;
            let w = self.map_size[0] as int;
            let h = self.map_size[1] as int;
            let c = tile.0 as int;
            let r = tile.1 as int;
            assert(0 <= c * tw < w * tw && (c * tw) / tw == c) by (nonlinear_arith)
                requires
                    0 <= c < w,
                    tw > 0,
            ;
            assert(0 <= r * th <= h * th - th && (r * th) / th == r) by (nonlinear_arith)
                requires
                    0 <= r < h,
                    th > 0,
            ;
        }
        let x: i32 = tile.0 as i32 * self.tile_size[0];
        let y: i32 = self.map_dimensions[1] - (tile.1 as i32 * self.tile_size[1])
            - self.tile_size[1];
        Position { x, y }
    }

    /// Resolves the region that an actor at `player_pos` stands in: the first
    /// region that holds the tile at that position.  Returns whether there is
    /// one; if there is none, the recorded region stays as it was.
    pub fn set_player_group_index_from_pos(&mut self, player_pos: &Position) -> (resolved: bool)
        requires
            old(self).wf(),
        ensures
            final(self).walkable_groups == old(self).walkable_groups,
            final(self).jump_targets == old(self).jump_targets,
            final(self).map_size == old(self).map_size,
            final(self).map_dimensions == old(self).map_dimensions,
            final(self).tile_size == old(self).tile_size,
            match old(self).tile_at(*player_pos) {
                Some(tile) => if resolved {
                    first_holding(
                        old(self).walkable_groups@,
                        tile,
                        final(self).player_group_index as int,
                    )
                } else {
                    none_holding(old(self).walkable_groups@, tile) && final(self).player_group_index
                        == old(self).player_group_index
                },
                None => !resolved && final(self).player_group_index == old(
                    self,
                ).player_group_index,
            },
    {
        match self.tile_for_position(player_pos) {
            Some(tile) => match self.region_of(tile) {
                Some(i) => {
                    self.player_group_index = i;
                    true
                },
                None => false,
            },
            None => false,
        }
    }
}

} // verus!

//! Derives the blocked tiles, the walkable regions and the jump targets of a
//! level from its collision layers.

use crate::types::{columns_contain, lists, Layer, LevelMap, TileMapping};
use crate::utils::regions::{
    add_tile, cluster, entries_of, flat, grow_regions, held, in_column, lemma_cluster_partitions,
    lemma_rows_of_lists, lemma_with_tile_ascends, lemma_with_tile_lists, row_or_empty, rows_ascend,
    rows_of, to_mapping, unpack, with_tile,
};
use crate::utils::ordered::{linked_entries, linked_get, linked_insert, linked_iter, linked_new, sort_keys};
use linked_hash_map::LinkedHashMap;
use vstd::prelude::*;

verus! {

/// Layers with this name hold the tiles that block movement.
pub open spec fn is_collision(layer: Layer) -> bool {
    layer.name@ == "ground"@
}

/// The layer is a collision layer and has a tile in cell `(x, y)`.
pub open spec fn marks(layer: Layer, x: int, y: int) -> bool {
    &&& is_collision(layer)
    &&& 0 <= y < layer.tiles@.len()
    &&& 0 <= x < layer.tiles@[y]@.len()
    &&& layer.tiles@[y]@[x] != 0
}

/// One of the first `n` layers blocks cell `(x, y)`.
pub open spec fn blocked_by(map: LevelMap, n: int, x: int, y: int) -> bool {
    exists|i: int| 0 <= i < n && i < map.layers@.len() && marks(#[trigger] map.layers@[i], x, y)
}

/// Cell `(x, y)` cannot be passed: some collision layer has a tile there.
pub open spec fn blocked(map: LevelMap, x: int, y: int) -> bool {
    blocked_by(map, map.layers@.len() as int, x, y)
}

/// Cell `(x, y)` is ground: it is free and the cell below it is blocked.
pub open spec fn is_ground(map: LevelMap, x: int, y: int) -> bool {
    blocked(map, x, y + 1) && !blocked(map, x, y)
}

/// No collision layer reaches beyond the size that the level declares.
pub open spec fn layers_fit(map: LevelMap) -> bool {
    forall|i: int|
        0 <= i < map.layers@.len() && is_collision(#[trigger] map.layers@[i]) ==> {
            &&& map.layers@[i].tiles@.len() <= map.height
            &&& forall|y: int|
                0 <= y < map.layers@[i].tiles@.len() ==> (#[trigger] map.layers@[i].tiles@[y])@.len()
                    <= map.width
        }
}

/// The rows of column `x` that are ground because of a blocked cell in one of
/// the first `h` rows, from the top down.
pub open spec fn ground_rows(map: LevelMap, x: int, h: nat) -> Seq<usize>
    decreases h,
{
    if h == 0 {
        Seq::empty()
    } else if h >= 2 && is_ground(map, x, h - 2) {
        ground_rows(map, x, (h - 1) as nat).push((h - 2) as usize)
    } else {
        ground_rows(map, x, (h - 1) as nat)
    }
}

/// The ground tiles of the first `w` columns as `(row, column)` pairs,
/// ordered by column and within a column from the top down: the order in
/// which regions are grown.
pub open spec fn ground_order(map: LevelMap, w: nat) -> Seq<(usize, usize)>
    decreases w,
{
    if w == 0 {
        Seq::empty()
    } else {
        ground_order(map, (w - 1) as nat) + in_column(
            ground_rows(map, w - 1, map.height as nat),
            (w - 1) as usize,
        )
    }
}

/// The walkable regions of a level, each a sequence of `(row, column)` tiles
/// in the order in which they joined.
pub open spec fn regions_of(map: LevelMap) -> Seq<Seq<(usize, usize)>> {
    cluster(ground_order(map, map.width as nat))
}

/// Whether the layer holds tiles that block movement.
pub fn is_collision_layer(layer: &Layer) -> (collides: bool)
    ensures
        collides == is_collision(*layer),
{
    let collision = "ground".to_owned();
    layer.name == collision
}

/// Whether every collision layer lies within the declared size of the level.
pub fn check_layers_fit(map: &LevelMap) -> (fit: bool)
    ensures
        fit == layers_fit(*map),
{
    let mut i: usize = 0;
    while i < map.layers.len()
        invariant
            i <= map.layers@.len(),
            forall|j: int|
                0 <= j < i && is_collision(#[trigger] map.layers@[j]) ==> {
                    &&& map.layers@[j].tiles@.len() <= map.height
                    &&& forall|y: int|
                        0 <= y < map.layers@[j].tiles@.len() ==> (
                        #[trigger] map.layers@[j].tiles@[y])@.len() <= map.width
                },
        decreases map.layers.len() - i,
    {
        let layer = &map.layers[i];
        if is_collision_layer(layer) {
            if layer.tiles.len() > map.height as usize {
                return false;
            }
            let mut y: usize = 0;
            while y < layer.tiles.len()
                invariant
                    y <= layer.tiles@.len(),
                    layer == &map.layers@[i as int],
                    i < map.layers@.len(),
                    is_collision(*layer),
                    forall|r: int| 0 <= r < y ==> (#[trigger] layer.tiles@[r])@.len() <= map.width,
                decreases layer.tiles.len() - y,
            {
                if layer.tiles[y].len() > map.width as usize {
                    return false;
                }
                y += 1;
            }
        }
        i += 1;
    }
    true
}

/// The cells of `layer` row by row, each as `(x, y, tile)`; empty cells are
/// left out unless `include_zero`.
pub fn for_each_cell(layer: &Layer, include_zero: bool) -> (cells: Vec<(usize, usize, u32)>)
    ensures
        forall|x: int, y: int|
            0 <= y < layer.tiles@.len() && 0 <= x < layer.tiles@[y]@.len() && (include_zero
                || layer.tiles@[y]@[x] != 0) ==> cells@.contains(
                (x as usize, y as usize, #[trigger] layer.tiles@[y]@[x]),
            ),
        forall|i: int|
            0 <= i < cells@.len() ==> {
                let c = #[trigger] cells@[i];
                &&& c.1 < layer.tiles@.len()
                &&& c.0 < layer.tiles@[c.1 as int]@.len()
                &&& c.2 == layer.tiles@[c.1 as int]@[c.0 as int]
                &&& include_zero || c.2 != 0
            },
        forall|i: int, j: int|
            0 <= i < j < cells@.len() ==> cells@[i].1 < cells@[j].1 || (cells@[i].1 == cells@[j].1
                && cells@[i].0 < cells@[j].0),
{
    let mut cells: Vec<(usize, usize, u32)> = Vec::new();
    let mut y: usize = 0;
    while y < layer.tiles.len()
        invariant
            y <= layer.tiles@.len(),
            forall|x: int, r: int|
                0 <= r < y && 0 <= x < layer.tiles@[r]@.len() && (include_zero
                    || layer.tiles@[r]@[x] != 0) ==> cells@.contains(
                    (x as usize, r as usize, #[trigger] layer.tiles@[r]@[x]),
                ),
            forall|i: int|
                0 <= i < cells@.len() ==> {
                    let c = #[trigger] cells@[i];
                    &&& c.1 < y
                    &&& c.0 < layer.tiles@[c.1 as int]@.len()
                    &&& c.2 == layer.tiles@[c.1 as int]@[c.0 as int]
                    &&& include_zero || c.2 != 0
                },
            forall|i: int, j: int|
                0 <= i < j < cells@.len() ==> cells@[i].1 < cells@[j].1 || (cells@[i].1
                    == cells@[j].1 && cells@[i].0 < cells@[j].0),
        decreases layer.tiles.len() - y,
    {
        let cols = &layer.tiles[y];
        let mut x: usize = 0;
        while x < cols.len()
            invariant
                x <= cols@.len(),
                y < layer.tiles@.len(),
                cols == &layer.tiles@[y as int],
                forall|c: int, r: int|
                    0 <= r < y && 0 <= c < layer.tiles@[r]@.len() && (include_zero
                        || layer.tiles@[r]@[c] != 0) ==> cells@.contains(
                        (c as usize, r as usize, #[trigger] layer.tiles@[r]@[c]),
                    ),
                forall|c: int|
                    0 <= c < x && (include_zero || cols@[c] != 0) ==> cells@.contains(
                        (c as usize, y, #[trigger] cols@[c]),
                    ),
                forall|i: int|
                    0 <= i < cells@.len() ==> {
                        let c = #[trigger] cells@[i];
                        &&& c.1 <= y
                        &&& c.1 == y ==> c.0 < x
                        &&& c.0 < layer.tiles@[c.1 as int]@.len()
                        &&& c.2 == layer.tiles@[c.1 as int]@[c.0 as int]
                        &&& include_zero || c.2 != 0
                    },
                forall|i: int, j: int|
                    0 <= i < j < cells@.len() ==> cells@[i].1 < cells@[j].1 || (cells@[i].1
                        == cells@[j].1 && cells@[i].0 < cells@[j].0),
            decreases cols.len() - x,
        {
            let cell = cols[x];
            if include_zero || cell != 0 {
                let ghost before = cells@;
                cells.push((x, y, cell));
                proof {
                    let last = before.len() as int;
                    assert(cells@[last] == (x, y, cell));
                    assert forall|c: int, r: int|
                        0 <= r < y && 0 <= c < layer.tiles@[r]@.len() && (include_zero
                            || layer.tiles@[r]@[c] != 0) implies cells@.contains(
                        (c as usize, r as usize, #[trigger] layer.tiles@[r]@[c]),
                    ) by {
                        let t = (c as usize, r as usize, layer.tiles@[r]@[c]);
                        assert(before.contains(t));
                        let i = choose|i: int| 0 <= i < before.len() && before[i] == t;
                        assert(cells@[i] == t);
                    }
                    assert forall|c: int|
                        0 <= c < x + 1 && (include_zero || cols@[c] != 0) implies cells@.contains(
                        (c as usize, y, #[trigger] cols@[c]),
                    ) by {
                        let t = (c as usize, y, cols@[c]);
                        if c < x {
                            assert(before.contains(t));
                            let i = choose|i: int| 0 <= i < before.len() && before[i] == t;
                            assert(cells@[i] == t);
                        } else {
                            assert(cells@[last] == t);
                        }
                    }
                }
            }
            x += 1;
        }
        y += 1;
    }
    cells
}

/// Records that the tile above the blocked tile `(x, y)` is ground: the
/// column is noted in `ground_x_keys` and the row above is added to the rows
/// of column `x`.  Ground is kept column by column, the order in which
/// regions are later grown.
pub fn add_column_above_to_ground(
    x: usize,
    y: usize,
    ground_tiles: &mut TileMapping<usize>,
    ground_x_keys: &mut Vec<usize>,
)
    requires
        y > 0,
    ensures
        final(ground_x_keys)@ == old(ground_x_keys)@.push(x),
        final(ground_tiles)@ == old(ground_tiles)@.insert(
            x,
            (if old(ground_tiles)@.contains_key(x) {
                old(ground_tiles)@[x]
            } else {
                Seq::<usize>::empty()
            }).push((y - 1) as usize),
        ),
{
    let y = y - 1;
    ground_x_keys.push(x);

    if ground_tiles.contains_key(&x) {
        let ys = ground_tiles.get_mut(&x).unwrap();
        ys.push(y);
    } else {
        let mut ys: Vec<usize> = Vec::new();
        ys.push(y);
        ground_tiles.insert(x, ys);
    }
}

/// A blocked cell lies within the declared size of the level.
pub proof fn lemma_blocked_in_level(map: LevelMap, x: int, y: int)
    requires
        layers_fit(map),
        blocked(map, x, y),
    ensures
        0 <= x < map.width,
        0 <= y < map.height,
{
    let i = choose|i: int|
        0 <= i < map.layers@.len() && i < map.layers@.len() && marks(
            #[trigger] map.layers@[i],
            x,
            y,
        );
    assert(is_collision(map.layers@[i]));
    assert(map.layers@[i].tiles@[y]@.len() <= map.width);
}

/// A grid of `high` rows and `wide` columns of cleared flags.
fn cleared_grid(wide: usize, high: usize) -> (grid: Vec<Vec<bool>>)
    ensures
        grid@.len() == high,
        forall|y: int| 0 <= y < high ==> (#[trigger] grid@[y])@.len() == wide,
        forall|y: int, x: int| 0 <= y < high && 0 <= x < wide ==> !(#[trigger] grid@[y]@[x]),
{
    let mut grid: Vec<Vec<bool>> = Vec::new();
    let mut y: usize = 0;
    while y < high
        invariant
            y <= high,
            grid@.len() == y,
            forall|j: int| 0 <= j < y ==> (#[trigger] grid@[j])@.len() == wide,
            forall|j: int, i: int| 0 <= j < y && 0 <= i < wide ==> !(#[trigger] grid@[j]@[i]),
        decreases high - y,
    {
        let mut row: Vec<bool> = Vec::new();
        let mut x: usize = 0;
        while x < wide
            invariant
                x <= wide,
                row@.len() == x,
                forall|i: int| 0 <= i < x ==> !(#[trigger] row@[i]),
            decreases wide - x,
        {
            row.push(false);
            x += 1;
        }
        grid.push(row);
        y += 1;
    }
    grid
}

/// The flags of `grid` describe the blocked cells of the level, as far as
/// the first `n` layers block them.
pub open spec fn grid_shows(grid: Seq<Vec<bool>>, map: LevelMap, n: int) -> bool {
    &&& grid.len() == map.height
    &&& forall|y: int| 0 <= y < grid.len() ==> (#[trigger] grid[y])@.len() == map.width
    &&& forall|y: int, x: int|
        0 <= y < map.height && 0 <= x < map.width ==> (#[trigger] grid[y]@[x]) == blocked_by(
            map,
            n,
            x,
            y,
        )
}

/// Merges the collision layers into one grid of flags, set where a cell is
/// blocked.
pub fn collision_grid(map: &LevelMap) -> (solid: Vec<Vec<bool>>)
    requires
        layers_fit(*map),
    ensures
        grid_shows(solid@, *map, map.layers@.len() as int),
{
    let mut solid = cleared_grid(map.width as usize, map.height as usize);
    let mut i: usize = 0;
    while i < map.layers.len()
        invariant
            i <= map.layers@.len(),
            layers_fit(*map),
            grid_shows(solid@, *map, i as int),
        decreases map.layers.len() - i,
    {
        let layer = &map.layers[i];
        if is_collision_layer(layer) {
            let cells = for_each_cell(layer, false);
            let mut j: usize = 0;
            while j < cells.len()
                invariant
                    j <= cells@.len(),
                    i < map.layers@.len(),
                    layer == &map.layers@[i as int],
                    is_collision(*layer),
                    layers_fit(*map),
                    solid@.len() == map.height,
                    forall|y: int|
                        0 <= y < solid@.len() ==> (#[trigger] solid@[y])@.len() == map.width,
                    forall|k: int|
                        0 <= k < cells@.len() ==> {
                            let c = #[trigger] cells@[k];
                            &&& c.1 < layer.tiles@.len()
                            &&& c.0 < layer.tiles@[c.1 as int]@.len()
                            &&& c.2 == layer.tiles@[c.1 as int]@[c.0 as int]
                            &&& c.2 != 0
                        },
                    forall|y: int, x: int|
                        0 <= y < map.height && 0 <= x < map.width ==> (#[trigger] solid@[y]@[x])
                            == (blocked_by(*map, i as int, x, y) || exists|k: int|
                            0 <= k < j && (#[trigger] cells@[k]).0 == x && cells@[k].1 == y),
                decreases cells.len() - j,
            {
                let cell = cells[j];
                let ghost before = solid@;
                assert(layer.tiles@[cell.1 as int]@.len() <= map.width);
                solid[cell.1][cell.0] = true;
                proof {
                    assert forall|y: int, x: int|
                        0 <= y < map.height && 0 <= x < map.width implies (
                    #[trigger] solid@[y]@[x]) == (blocked_by(*map, i as int, x, y) || exists|k: int|
                        0 <= k < j + 1 && (#[trigger] cells@[k]).0 == x && cells@[k].1 == y) by {
                        if x == cell.0 && y == cell.1 {
                            assert(cells@[j as int].0 == x && cells@[j as int].1 == y);
                        } else {
                            assert(solid@[y]@[x] == before[y]@[x]);
                            if exists|k: int|
                                0 <= k < j + 1 && (#[trigger] cells@[k]).0 == x && cells@[k].1
                                    == y {
                                let k = choose|k: int|
                                    0 <= k < j + 1 && (#[trigger] cells@[k]).0 == x
                                        && cells@[k].1 == y;
                                assert(k < j);
                            }
                        }
                    }
                }
                j += 1;
            }
            proof {
                assert forall|y: int, x: int|
                    0 <= y < map.height && 0 <= x < map.width implies (#[trigger] solid@[y]@[x])
                    == blocked_by(*map, i + 1, x, y) by {
                    let listed = exists|k: int|
                        0 <= k < j && (#[trigger] cells@[k]).0 == x && cells@[k].1 == y;
                    if listed {
                        let k = choose|k: int|
                            0 <= k < j && (#[trigger] cells@[k]).0 == x && cells@[k].1 == y;
                        assert(marks(map.layers@[i as int], x, y));
                    }
                    if blocked_by(*map, i + 1, x, y) && !blocked_by(*map, i as int, x, y) {
                        let l = choose|l: int|
                            0 <= l < i + 1 && l < map.layers@.len() && marks(
                                #[trigger] map.layers@[l],
                                x,
                                y,
                            );
                        assert(l == i);
                        let t = (x as usize, y as usize, layer.tiles@[y]@[x]);
                        assert(cells@.contains(t));
                        let k = choose|k: int| 0 <= k < cells@.len() && cells@[k] == t;
                        assert(cells@[k].0 == x && cells@[k].1 == y);
                    }
                    if blocked_by(*map, i as int, x, y) {
                        let l = choose|l: int|
                            0 <= l < i && l < map.layers@.len() && marks(
                                #[trigger] map.layers@[l],
                                x,
                                y,
                            );
                        assert(marks(map.layers@[l], x, y));
                    }
                }
            }
        } else {
            proof {
                assert forall|y: int, x: int|
                    0 <= y < map.height && 0 <= x < map.width implies blocked_by(
                    *map,
                    i as int,
                    x,
                    y,
                ) == blocked_by(*map, i + 1, x, y) by {
                    if blocked_by(*map, i + 1, x, y) {
                        let l = choose|l: int|
                            0 <= l < i + 1 && l < map.layers@.len() && marks(
                                #[trigger] map.layers@[l],
                                x,
                                y,
                            );
                        assert(l != i);
                    }
                    if blocked_by(*map, i as int, x, y) {
                        let l = choose|l: int|
                            0 <= l < i && l < map.layers@.len() && marks(
                                #[trigger] map.layers@[l],
                                x,
                                y,
                            );
                        assert(marks(map.layers@[l], x, y));
                    }
                }
            }
        }
        i += 1;
    }
    solid
}

/// How many rows of column `c` have been looked at once the scan stands at
/// cell `(x, y)`.
pub open spec fn rows_seen(c: int, x: int, y: int) -> nat {
    if c < x {
        (y + 1) as nat
    } else {
        y as nat
    }
}

/// What the scan of the blocked cells has gathered when it stands at cell
/// `(x, y)`: the blocked cells before it row by row, the ground above them
/// column by column, and the columns that have ground.
pub open spec fn scanned(
    map: LevelMap,
    unpassable: TileMapping<usize>,
    ground: TileMapping<usize>,
    keys: Seq<usize>,
    x: int,
    y: int,
) -> bool {
    &&& forall|c: usize, r: usize|
        unpassable.has(r, c) <==> blocked(map, c as int, r as int) && (r < y || (r == y && c < x))
    &&& rows_ascend(unpassable@)
    &&& forall|c: usize|
        c < map.width ==> #[trigger] row_or_empty(ground@, c) == ground_rows(
            map,
            c as int,
            rows_seen(c as int, x, y),
        )
    &&& forall|c: usize| #[trigger]
        ground@.contains_key(c) ==> c < map.width && ground@[c].len() > 0
    &&& forall|k: usize| keys.contains(k) <==> ground@.contains_key(k)
}

/// Walks the blocked cells row by row and gathers them, together with the
/// ground tiles above them.
fn scan_ground(map: &LevelMap, solid: &Vec<Vec<bool>>) -> (found: (
    TileMapping<usize>,
    TileMapping<usize>,
    Vec<usize>,
))
    requires
        layers_fit(*map),
        grid_shows(solid@, *map, map.layers@.len() as int),
    ensures
        scanned(*map, found.0, found.1, found.2@, 0, map.height as int),
{
    let mut unpassable_tiles: TileMapping<usize> = TileMapping::new();
    let mut ground_tiles: TileMapping<usize> = TileMapping::new();
    let mut ground_x_keys: Vec<usize> = Vec::new();
    let width: usize = map.width as usize;
    let height: usize = map.height as usize;
    let mut y: usize = 0;
    while y < height
        invariant
            y <= height,
            width == map.width,
            height == map.height,
            layers_fit(*map),
            grid_shows(solid@, *map, map.layers@.len() as int),
            scanned(*map, unpassable_tiles, ground_tiles, ground_x_keys@, 0, y as int),
        decreases height - y,
    {
        let mut x: usize = 0;
        while x < width
            invariant
                x <= width,
                y < height,
                width == map.width,
                height == map.height,
                layers_fit(*map),
                grid_shows(solid@, *map, map.layers@.len() as int),
                scanned(*map, unpassable_tiles, ground_tiles, ground_x_keys@, x as int, y as int),
            decreases width - x,
        {
            let ghost unpassable0 = unpassable_tiles;
            let ghost ground0 = ground_tiles;
            let ghost keys0 = ground_x_keys@;
            assert(solid@[y as int]@[x as int] == blocked(*map, x as int, y as int));
            if solid[y][x] {
                add_tile(&mut unpassable_tiles, y, x);
                if y > 0 && !unpassable_tiles.contains(&(y - 1), &x) {
                    add_column_above_to_ground(x, y, &mut ground_tiles, &mut ground_x_keys);
                }
            }
            proof {
                lemma_scan_step(
                    *map,
                    unpassable0,
                    ground0,
                    keys0,
                    unpassable_tiles,
                    ground_tiles,
                    ground_x_keys@,
                    x,
                    y,
                );
            }
            x += 1;
        }
        proof {
            assert forall|c: usize, r: usize|
                unpassable_tiles.has(r, c) <==> blocked(*map, c as int, r as int) && (r < y + 1 || (
                r == y + 1 && c < 0)) by {
                if blocked(*map, c as int, r as int) {
                    lemma_blocked_in_level(*map, c as int, r as int);
                }
            }
            assert forall|c: usize| c < map.width implies #[trigger] row_or_empty(
                ground_tiles@,
                c,
            ) == ground_rows(*map, c as int, rows_seen(c as int, 0, y + 1)) by {
                assert(rows_seen(c as int, x as int, y as int) == rows_seen(c as int, 0, y + 1));
            }
        }
        y += 1;
    }
    (unpassable_tiles, ground_tiles, ground_x_keys)
}

/// One step of the scan: what was gathered before cell `(x, y)` and what the
/// step added make what is gathered before the next cell.
proof fn lemma_scan_step(
    map: LevelMap,
    unpassable0: TileMapping<usize>,
    ground0: TileMapping<usize>,
    keys0: Seq<usize>,
    unpassable: TileMapping<usize>,
    ground: TileMapping<usize>,
    keys: Seq<usize>,
    x: usize,
    y: usize,
)
    requires
        layers_fit(map),
        x < map.width,
        y < map.height,
        scanned(map, unpassable0, ground0, keys0, x as int, y as int),
        unpassable@ == if blocked(map, x as int, y as int) {
            with_tile(unpassable0@, (y, x))
        } else {
            unpassable0@
        },
        blocked(map, x as int, y as int) && y > 0 && !blocked(map, x as int, y - 1) ==> keys
            == keys0.push(x) && ground@ == ground0@.insert(
            x,
            row_or_empty(ground0@, x).push((y - 1) as usize),
        ),
        !(blocked(map, x as int, y as int) && y > 0 && !blocked(map, x as int, y - 1)) ==> keys
            == keys0 && ground@ == ground0@,
    ensures
        scanned(map, unpassable, ground, keys, x + 1, y as int),
{
    let hit = blocked(map, x as int, y as int);
    let grows = hit && y > 0 && !blocked(map, x as int, y - 1);
    assert forall|c: usize, r: usize|
        unpassable.has(r, c) <==> blocked(map, c as int, r as int) && (r < y || (r == y && c < x
            + 1)) by {
        if hit {
            let row = row_or_empty(unpassable0@, y);
            if r == y {
                assert(unpassable@[y] == row.push(x));
                if c == x {
                    assert(row.push(x)[row.len() as int] == x);
                    assert(unpassable@[y].contains(x));
                } else {
                    if row.contains(c) {
                        let a = choose|a: int| 0 <= a < row.len() && row[a] == c;
                        assert(row.push(x)[a] == c);
                    }
                    if row.push(x).contains(c) {
                        let a = choose|a: int| 0 <= a < row.push(x).len() && row.push(x)[a] == c;
                        assert(row[a] == c);
                        assert(unpassable0.has(r, c));
                    }
                    assert(unpassable0.has(r, c) <==> unpassable.has(r, c));
                }
            } else {
                assert(unpassable0.has(r, c) <==> unpassable.has(r, c));
            }
        }
    }
    assert forall|r: usize| #[trigger] unpassable@.contains_key(r) implies {
        &&& unpassable@[r].len() > 0
        &&& forall|a: int, b: int|
            0 <= a < b < unpassable@[r].len() ==> unpassable@[r][a] < unpassable@[r][b]
    } by {
        if hit && r == y {
            let row = row_or_empty(unpassable0@, y);
            assert(unpassable@[y] == row.push(x));
            assert forall|a: int| 0 <= a < row.len() implies row[a] < x by {
                assert(unpassable0@.contains_key(y));
                assert(row.contains(row[a]));
                assert(unpassable0.has(y, row[a]));
            }
            if unpassable0@.contains_key(y) {
                assert(unpassable0@[y].len() > 0);
            }
        } else {
            assert(unpassable0@.contains_key(r));
        }
    }
    assert forall|c: usize| c < map.width implies #[trigger] row_or_empty(ground@, c)
        == ground_rows(map, c as int, rows_seen(c as int, x + 1, y as int)) by {
        assert(row_or_empty(ground0@, c) == ground_rows(
            map,
            c as int,
            rows_seen(c as int, x as int, y as int),
        ));
        if c == x {
            assert(rows_seen(c as int, x as int, y as int) == y);
            assert(rows_seen(c as int, x + 1, y as int) == y + 1);
            if y >= 1 {
                assert(is_ground(map, x as int, y + 1 - 2) == grows);
            }
        }
    }
    assert forall|c: usize| #[trigger] ground@.contains_key(c) implies c < map.width
        && ground@[c].len() > 0 by {
        if grows && c == x {
        } else {
            assert(ground0@.contains_key(c));
        }
    }
    assert forall|k: usize| keys.contains(k) <==> ground@.contains_key(k) by {
        if grows {
            if k == x {
                assert(keys[keys0.len() as int] == x);
            } else {
                if keys0.contains(k) {
                    let a = choose|a: int| 0 <= a < keys0.len() && keys0[a] == k;
                    assert(keys[a] == k);
                }
                if keys.contains(k) {
                    let a = choose|a: int| 0 <= a < keys.len() && keys[a] == k;
                    assert(keys0[a] == k);
                }
            }
        }
    }
}

/// One of the entries is for key `k`.
pub open spec fn has_key(entries: Seq<(usize, Seq<usize>)>, k: usize) -> bool {
    exists|a: int| 0 <= a < entries.len() && (#[trigger] entries[a]).0 == k
}

/// `k` is one of the first `n` keys.
pub open spec fn among(keys: Seq<usize>, n: int, k: usize) -> bool {
    exists|t: int| 0 <= t < n && t < keys.len() && #[trigger] keys[t] == k
}

/// The entries hold the ground of `ground` column by column: keys strictly
/// ascending, each with the rows of its column, and no column left out.
pub open spec fn columns_ordered(
    entries: Seq<(usize, Seq<usize>)>,
    ground: Map<usize, Seq<usize>>,
) -> bool {
    &&& forall|a: int, b: int| 0 <= a < b < entries.len() ==> entries[a].0 < entries[b].0
    &&& forall|a: int|
        0 <= a < entries.len() ==> ground.contains_key((#[trigger] entries[a]).0) && entries[a].1
            == ground[entries[a].0]
    &&& forall|k: usize| ground.contains_key(k) ==> #[trigger] has_key(entries, k)
}

/// Puts the ground columns into an insertion-ordered map, lowest column
/// first.
fn order_columns(ground: &TileMapping<usize>, keys: Vec<usize>) -> (ordered: LinkedHashMap<
    usize,
    Vec<usize>,
>)
    requires
        forall|k: usize| keys@.contains(k) <==> ground@.contains_key(k),
    ensures
        columns_ordered(linked_entries(ordered), ground@),
{
    let mut keys = keys;
    let ghost unsorted = keys@;
    sort_keys(&mut keys);
    proof {
        unsorted.to_multiset_ensures();
        keys@.to_multiset_ensures();
        assert forall|k: usize| keys@.contains(k) <==> ground@.contains_key(k) by {
            assert(unsorted.contains(k) <==> unsorted.to_multiset().count(k) > 0);
            assert(keys@.contains(k) <==> keys@.to_multiset().count(k) > 0);
        }
    }
    let mut ordered = linked_new();
    let mut i: usize = 0;
    while i < keys.len()
        invariant
            i <= keys@.len(),
            forall|k: usize| keys@.contains(k) <==> ground@.contains_key(k),
            forall|a: int, b: int| 0 <= a <= b < keys@.len() ==> keys@[a] <= keys@[b],
            forall|a: int, b: int|
                0 <= a < b < linked_entries(ordered).len() ==> linked_entries(ordered)[a].0
                    < linked_entries(ordered)[b].0,
            forall|a: int|
                0 <= a < linked_entries(ordered).len() ==> ground@.contains_key(
                    (#[trigger] linked_entries(ordered)[a]).0,
                ) && linked_entries(ordered)[a].1 == ground@[linked_entries(ordered)[a].0],
            forall|t: int| 0 <= t < i ==> has_key(linked_entries(ordered), #[trigger] keys@[t]),
            forall|a: int|
                0 <= a < linked_entries(ordered).len() ==> among(
                    keys@,
                    i as int,
                    (#[trigger] linked_entries(ordered)[a]).0,
                ),
        decreases keys.len() - i,
    {
        let key = keys[i];
        assert(keys@.contains(key));
        let rows = ground.get(&key).unwrap().clone();
        assert(rows@ =~= ground@[key]);
        let ghost before = linked_entries(ordered);
        linked_insert(&mut ordered, key, rows);
        proof {
            let after = linked_entries(ordered);
            assert forall|a: int| 0 <= a < before.len() implies (#[trigger] before[a]).0 <= key by {
                assert(among(keys@, i as int, before[a].0));
                let t = choose|t: int|
                    0 <= t < i && t < keys@.len() && #[trigger] keys@[t] == before[a].0;
                assert(keys@[t] <= keys@[i as int]);
            }
            if exists|a: int| 0 <= a < before.len() && (#[trigger] before[a]).0 == key {
                let a = choose|a: int| 0 <= a < before.len() && (#[trigger] before[a]).0 == key;
                if a < before.len() - 1 {
                    assert(before[a].0 < before[before.len() - 1].0);
                    assert(before[before.len() - 1].0 <= key);
                }
                assert(after == before.remove(a).push((key, rows@)));
                assert(after =~= before);
            } else {
                assert(after == before.push((key, rows@)));
                assert forall|a: int, b: int| 0 <= a < b < after.len() implies after[a].0
                    < after[b].0 by {
                    if b == before.len() {
                        assert(before[a].0 <= key);
                    }
                }
            }
            assert(has_key(after, key)) by {
                if after =~= before {
                    let a = choose|a: int|
                        0 <= a < before.len() && (#[trigger] before[a]).0 == key;
                    assert(after[a].0 == key);
                } else {
                    assert(after[before.len() as int].0 == key);
                }
            }
            assert forall|t: int| 0 <= t < i + 1 implies has_key(after, #[trigger] keys@[t]) by {
                if t < i {
                    assert(has_key(before, keys@[t]));
                    let a = choose|a: int|
                        0 <= a < before.len() && (#[trigger] before[a]).0 == keys@[t];
                    assert(after[a].0 == keys@[t]);
                }
            }
            assert forall|a: int| 0 <= a < after.len() implies among(
                keys@,
                i + 1,
                (#[trigger] after[a]).0,
            ) by {
                if a < before.len() {
                    assert(among(keys@, i as int, before[a].0));
                    let t = choose|t: int|
                        0 <= t < i && t < keys@.len() && #[trigger] keys@[t] == before[a].0;
                    assert(keys@[t] == after[a].0);
                } else {
                    assert(keys@[i as int] == after[a].0);
                }
            }
        }
        i += 1;
    }
    proof {
        assert forall|k: usize| ground@.contains_key(k) implies #[trigger] has_key(
            linked_entries(ordered),
            k,
        ) by {
            assert(keys@.contains(k));
            let t = choose|t: int| 0 <= t < keys@.len() && keys@[t] == k;
            assert(has_key(linked_entries(ordered), keys@[t]));
        }
    }
    ordered
}

/// The first `a` entries, which are those for columns below `w`, list the
/// ground of the first `w` columns in growing order.
proof fn lemma_flat_prefix(
    map: LevelMap,
    entries: Seq<(usize, Seq<usize>)>,
    ground: Map<usize, Seq<usize>>,
    w: nat,
    a: int,
)
    requires
        columns_ordered(entries, ground),
        w <= map.width,
        forall|c: usize|
            c < map.width ==> #[trigger] row_or_empty(ground, c) == ground_rows(
                map,
                c as int,
                map.height as nat,
            ),
        forall|c: usize| #[trigger] ground.contains_key(c) ==> c < map.width && ground[c].len() > 0,
        0 <= a <= entries.len(),
        forall|b: int| 0 <= b < a ==> (#[trigger] entries[b]).0 < w,
        forall|b: int| a <= b < entries.len() ==> (#[trigger] entries[b]).0 >= w,
    ensures
        flat(entries.take(a)) == ground_order(map, w),
    decreases w,
{
    if w == 0 {
        if a > 0 {
            assert(entries[0].0 < 0);
        }
        assert(entries.take(0) =~= Seq::empty());
    } else {
        let c = (w - 1) as usize;
        assert(row_or_empty(ground, c) == ground_rows(map, c as int, map.height as nat));
        if a > 0 && entries[a - 1].0 == c {
            assert forall|b: int| 0 <= b < a - 1 implies (#[trigger] entries[b]).0 < w - 1 by {
                assert(entries[b].0 < entries[a - 1].0);
            }
            assert forall|b: int| a - 1 <= b < entries.len() implies (#[trigger] entries[b]).0 >= w
                - 1 by {
                if b > a - 1 {
                    assert(entries[a - 1].0 < entries[b].0);
                }
            }
            lemma_flat_prefix(map, entries, ground, (w - 1) as nat, a - 1);
            assert(entries.take(a).drop_last() =~= entries.take(a - 1));
            assert(entries.take(a).last() == entries[a - 1]);
            assert(ground.contains_key(entries[a - 1].0));
        } else {
            assert forall|b: int| 0 <= b < a implies (#[trigger] entries[b]).0 < w - 1 by {
                if b < a - 1 {
                    assert(entries[b].0 < entries[a - 1].0);
                }
            }
            lemma_flat_prefix(map, entries, ground, (w - 1) as nat, a);
            if ground.contains_key(c) {
                assert(has_key(entries, c));
                let b = choose|b: int| 0 <= b < entries.len() && (#[trigger] entries[b]).0 == c;
                assert(false);
            }
            assert(in_column(Seq::<usize>::empty(), c) =~= Seq::empty());
            assert(ground_order(map, w) =~= ground_order(map, (w - 1) as nat));
        }
    }
}

/// The ordered ground columns list the ground of the level in growing order.
pub proof fn lemma_flat_is_ground_order(
    map: LevelMap,
    entries: Seq<(usize, Seq<usize>)>,
    ground: Map<usize, Seq<usize>>,
)
    requires
        columns_ordered(entries, ground),
        forall|c: usize|
            c < map.width ==> #[trigger] row_or_empty(ground, c) == ground_rows(
                map,
                c as int,
                map.height as nat,
            ),
        forall|c: usize| #[trigger] ground.contains_key(c) ==> c < map.width && ground[c].len() > 0,
    ensures
        flat(entries) == ground_order(map, map.width as nat),
{
    assert forall|b: int| 0 <= b < entries.len() implies (#[trigger] entries[b]).0
        < map.width by {
        assert(ground.contains_key(entries[b].0));
    }
    lemma_flat_prefix(map, entries, ground, map.width as nat, entries.len() as int);
    assert(entries.take(entries.len() as int) =~= entries);
}

/// Cell `(x, y)` of the level is free and is not ground: it can only be
/// reached by a jump.
pub open spec fn is_jump_target(map: LevelMap, x: int, y: int) -> bool {
    &&& 0 <= x < map.width
    &&& 0 <= y < map.height
    &&& !blocked(map, x, y)
    &&& !is_ground(map, x, y)
}

/// The ground rows gathered from the first `h` rows of a column are the
/// ground tiles of that column above those rows.
pub proof fn lemma_ground_rows(map: LevelMap, x: int, h: nat)
    requires
        h <= usize::MAX,
    ensures
        forall|r: usize| #[trigger]
            ground_rows(map, x, h).contains(r) <==> r + 2 <= h && is_ground(map, x, r as int),
        forall|a: int, b: int|
            0 <= a < b < ground_rows(map, x, h).len() ==> ground_rows(map, x, h)[a] < ground_rows(
                map,
                x,
                h,
            )[b],
    decreases h,
{
    if h > 0 {
        lemma_ground_rows(map, x, (h - 1) as nat);
        let before = ground_rows(map, x, (h - 1) as nat);
        let now = ground_rows(map, x, h);
        if h >= 2 && is_ground(map, x, h - 2) {
            assert(now == before.push((h - 2) as usize));
            assert forall|r: usize| #[trigger]
                now.contains(r) <==> r + 2 <= h && is_ground(map, x, r as int) by {
                assert(before.contains(r) <==> r + 2 <= h - 1 && is_ground(map, x, r as int));
                if r + 2 == h {
                    assert(now[before.len() as int] == r);
                } else {
                    if before.contains(r) {
                        let a = choose|a: int| 0 <= a < before.len() && before[a] == r;
                        assert(now[a] == r);
                    }
                    if now.contains(r) {
                        let a = choose|a: int| 0 <= a < now.len() && now[a] == r;
                        assert(before[a] == r);
                    }
                }
            }
            assert forall|a: int, b: int| 0 <= a < b < now.len() implies now[a] < now[b] by {
                if b == before.len() {
                    assert(before.contains(before[a]));
                }
            }
        } else {
            assert(now == before);
            assert forall|r: usize| #[trigger]
                now.contains(r) <==> r + 2 <= h && is_ground(map, x, r as int) by {
                assert(before.contains(r) <==> r + 2 <= h - 1 && is_ground(map, x, r as int));
            }
        }
    } else {
        assert forall|r: usize| !(#[trigger] ground_rows(map, x, h).contains(r)) by {}
    }
}

/// Gathers the cells that are neither blocked nor ground, column by column.
fn find_jump_targets(
    map: &LevelMap,
    unpassable_tiles: &TileMapping<usize>,
    ground_tiles: &LinkedHashMap<usize, Vec<usize>>,
    Ghost(by_column): Ghost<Map<usize, Seq<usize>>>,
) -> (jump_targets: TileMapping<usize>)
    requires
        layers_fit(*map),
        forall|c: usize, r: usize| unpassable_tiles.has(r, c) <==> blocked(*map, c as int, r as int),
        columns_ordered(linked_entries(*ground_tiles), by_column),
        forall|c: usize|
            c < map.width ==> #[trigger] row_or_empty(by_column, c) == ground_rows(
                *map,
                c as int,
                map.height as nat,
            ),
    ensures
        forall|c: usize, r: usize|
            jump_targets.has(r, c) <==> is_jump_target(*map, c as int, r as int),
        rows_ascend(jump_targets@),
{
    let mut jump_targets: TileMapping<usize> = TileMapping::new();
    let width: usize = map.width as usize;
    let height: usize = map.height as usize;
    let mut x: usize = 0;
    while x < width
        invariant
            x <= width,
            width == map.width,
            height == map.height,
            layers_fit(*map),
            forall|c: usize, r: usize|
                unpassable_tiles.has(r, c) <==> blocked(*map, c as int, r as int),
            columns_ordered(linked_entries(*ground_tiles), by_column),
            forall|c: usize|
                c < map.width ==> #[trigger] row_or_empty(by_column, c) == ground_rows(
                    *map,
                    c as int,
                    map.height as nat,
                ),
            forall|c: usize, r: usize| #[trigger]
                jump_targets.has(r, c) <==> is_jump_target(*map, c as int, r as int) && c < x,
            rows_ascend(jump_targets@),
        decreases width - x,
    {
        let column = linked_get(ground_tiles, &x);
        proof {
            lemma_ground_rows(*map, x as int, map.height as nat);
            assert(row_or_empty(by_column, x) == ground_rows(*map, x as int, map.height as nat));
            match column {
                Some(rows) => {
                    let a = choose|a: int|
                        0 <= a < linked_entries(*ground_tiles).len() && (
                        #[trigger] linked_entries(*ground_tiles)[a]) == (x, rows@);
                    assert(by_column.contains_key(linked_entries(*ground_tiles)[a].0));
                },
                None => {
                    if by_column.contains_key(x) {
                        assert(has_key(linked_entries(*ground_tiles), x));
                    }
                },
            }
        }
        let mut y: usize = 0;
        while y < height
            invariant
                y <= height,
                x < width,
                width == map.width,
                height == map.height,
                layers_fit(*map),
                forall|c: usize, r: usize|
                    unpassable_tiles.has(r, c) <==> blocked(*map, c as int, r as int),
                match column {
                    Some(rows) => rows@ == ground_rows(*map, x as int, map.height as nat),
                    None => ground_rows(*map, x as int, map.height as nat).len() == 0,
                },
                forall|r: usize| #[trigger]
                    ground_rows(*map, x as int, map.height as nat).contains(r) <==> r + 2
                        <= map.height && is_ground(*map, x as int, r as int),
                forall|c: usize, r: usize| #[trigger]
                    jump_targets.has(r, c) <==> is_jump_target(*map, c as int, r as int) && (c < x
                        || (c == x && r < y)),
                rows_ascend(jump_targets@),
            decreases height - y,
        {
            let on_ground = match column {
                Some(rows) => columns_contain(rows, y),
                None => false,
            };
            proof {
                if is_ground(*map, x as int, y as int) {
                    lemma_blocked_in_level(*map, x as int, y + 1);
                }
                let rows = ground_rows(*map, x as int, map.height as nat);
                assert(rows.contains(y) <==> y + 2 <= map.height && is_ground(
                    *map,
                    x as int,
                    y as int,
                ));
                if rows.len() == 0 && rows.contains(y) {
                    let a = choose|a: int| 0 <= a < rows.len() && rows[a] == y;
                }
                assert(on_ground == is_ground(*map, x as int, y as int));
            }
            if !unpassable_tiles.contains(&y, &x) && !on_ground {
                proof {
                    lemma_with_tile_lists(jump_targets@, (y, x));
                    assert forall|c: usize| lists(jump_targets@, y, c) implies c < x by {
                        assert(jump_targets.has(y, c));
                    }
                    lemma_with_tile_ascends(jump_targets@, (y, x));
                }
                let ghost gathered = jump_targets;
                let ghost before = jump_targets@;
                add_tile(&mut jump_targets, y, x);
                assert forall|c: usize, r: usize| #[trigger]
                    jump_targets.has(r, c) <==> is_jump_target(*map, c as int, r as int) && (c < x
                        || (c == x && r < y + 1)) by {
                    assert(lists(with_tile(before, (y, x)), r, c) <==> lists(before, r, c) || (r, c)
                        == (y, x));
                    assert(gathered.has(r, c) <==> is_jump_target(*map, c as int, r as int) && (c
                        < x || (c == x && r < y)));
                }
            } else {
                assert(!is_jump_target(*map, x as int, y as int));
            }
            y += 1;
        }
        x += 1;
    }
    jump_targets
}

/// Derives from the collision layers of a level its walkable regions, its
/// jump targets and its blocked tiles.
///
/// A tile is ground when it is free and the tile below it is blocked.
/// Regions grow greedily from the ground tiles, taken column by column and
/// within a column from the top down: a tile joins the first region whose
/// youngest tile lies in the same column or the one to the left, at most one
/// row away, and opens a new region if there is none.  Jump targets are the
/// tiles of the level that are neither blocked nor ground.  Each mapping lists
/// its tiles row by row.
pub fn parse_out_map_layers(map: &LevelMap) -> (parsed: (
    Vec<TileMapping<usize>>,
    TileMapping<usize>,
    TileMapping<usize>,
))
    requires
        layers_fit(*map),
    ensures
        parsed.0@.len() == regions_of(*map).len(),
        forall|i: int|
            0 <= i < parsed.0@.len() ==> (#[trigger] parsed.0@[i])@ == rows_of(regions_of(*map)[i]),
        forall|c: usize, r: usize|
            parsed.1.has(r, c) <==> is_jump_target(*map, c as int, r as int),
        rows_ascend(parsed.1@),
        forall|c: usize, r: usize| parsed.2.has(r, c) <==> blocked(*map, c as int, r as int),
        rows_ascend(parsed.2@),
{
    let solid = collision_grid(map);
    let (unpassable_tiles, temp_ground_tiles, ground_x_keys) = scan_ground(map, &solid);
    proof {
        assert forall|c: usize, r: usize|
            unpassable_tiles.has(r, c) <==> blocked(*map, c as int, r as int) by {
            if blocked(*map, c as int, r as int) {
                lemma_blocked_in_level(*map, c as int, r as int);
            }
        }
        assert forall|c: usize| c < map.width implies #[trigger] row_or_empty(
            temp_ground_tiles@,
            c,
        ) == ground_rows(*map, c as int, map.height as nat) by {
            assert(rows_seen(c as int, 0, map.height as int) == map.height);
        }
    }
    let ground_tiles = order_columns(&temp_ground_tiles, ground_x_keys);
    let entries = linked_iter(&ground_tiles);
    let walkable_coord_pairs = grow_regions(&entries);
    proof {
        assert(entries_of(entries@) =~= linked_entries(ground_tiles));
        lemma_flat_is_ground_order(*map, linked_entries(ground_tiles), temp_ground_tiles@);
    }
    let mut walkable_coords: Vec<TileMapping<usize>> = Vec::new();
    let mut i: usize = 0;
    while i < walkable_coord_pairs.len()
        invariant
            i <= walkable_coord_pairs@.len(),
            walkable_coords@.len() == i,
            unpack(walkable_coord_pairs@) == regions_of(*map),
            forall|j: int|
                0 <= j < i ==> (#[trigger] walkable_coords@[j])@ == rows_of(regions_of(*map)[j]),
        decreases walkable_coord_pairs.len() - i,
    {
        let coords = to_mapping(&walkable_coord_pairs[i]);
        assert(unpack(walkable_coord_pairs@)[i as int] == walkable_coord_pairs@[i as int]@);
        walkable_coords.push(coords);
        i += 1;
    }
    assert(unpack(walkable_coord_pairs@).len() == walkable_coord_pairs@.len());
    let jump_targets = find_jump_targets(
        map,
        &unpassable_tiles,
        &ground_tiles,
        Ghost(temp_ground_tiles@),
    );
    (walkable_coords, jump_targets, unpassable_tiles)
}

/// Region `i` of the level holds the tile in row `r` and column `c`.
pub open spec fn in_region(map: LevelMap, i: int, r: usize, c: usize) -> bool {
    0 <= i < regions_of(map).len() && lists(rows_of(regions_of(map)[i]), r, c)
}

/// The growing order lists each ground tile of the first `w` columns once,
/// and nothing else.
pub proof fn lemma_ground_order(map: LevelMap, w: nat)
    requires
        w <= usize::MAX,
    ensures
        forall|r: usize, c: usize| #[trigger]
            ground_order(map, w).contains((r, c)) <==> c < w && r + 2 <= map.height && is_ground(
                map,
                c as int,
                r as int,
            ),
        forall|a: int, b: int|
            0 <= a < b < ground_order(map, w).len() ==> ground_order(map, w)[a] != ground_order(
                map,
                w,
            )[b],
    decreases w,
{
    let all = ground_order(map, w);
    if w > 0 {
        let col = (w - 1) as usize;
        let front = ground_order(map, (w - 1) as nat);
        let rows = ground_rows(map, w - 1, map.height as nat);
        let back = in_column(rows, col);
        lemma_ground_order(map, (w - 1) as nat);
        lemma_ground_rows(map, w - 1, map.height as nat);
        assert(all == front + back);
        assert forall|r: usize, c: usize| #[trigger]
            all.contains((r, c)) <==> c < w && r + 2 <= map.height && is_ground(
                map,
                c as int,
                r as int,
            ) by {
            assert(front.contains((r, c)) <==> c < w - 1 && r + 2 <= map.height && is_ground(
                map,
                c as int,
                r as int,
            ));
            assert(rows.contains(r) <==> r + 2 <= map.height && is_ground(map, w - 1, r as int));
            if all.contains((r, c)) {
                let a = choose|a: int| 0 <= a < all.len() && all[a] == (r, c);
                if a < front.len() {
                    assert(front[a] == (r, c));
                } else {
                    assert(back[a - front.len()] == (r, c));
                    assert(rows[a - front.len()] == r);
                }
            }
            if front.contains((r, c)) {
                let a = choose|a: int| 0 <= a < front.len() && front[a] == (r, c);
                assert(all[a] == (r, c));
            }
            if c == col && rows.contains(r) {
                let a = choose|a: int| 0 <= a < rows.len() && rows[a] == r;
                assert(all[front.len() + a] == (r, c));
            }
        }
        assert forall|a: int, b: int| 0 <= a < b < all.len() implies all[a] != all[b] by {
            if b < front.len() {
                assert(all[a] == front[a] && all[b] == front[b]);
            } else if a < front.len() {
                assert(front.contains(front[a]));
                assert(all[b] == back[b - front.len()]);
            } else {
                assert(all[a] == back[a - front.len()]);
                assert(all[b] == back[b - front.len()]);
                assert(rows[a - front.len()] < rows[b - front.len()]);
            }
        }
    } else {
        assert forall|r: usize, c: usize| !(#[trigger] all.contains((r, c))) by {}
    }
}

/// The regions of a level partition its ground: a tile belongs to a region
/// exactly when it is ground, and then to one region only.
pub proof fn lemma_regions_partition_ground(map: LevelMap)
    requires
        layers_fit(map),
    ensures
        forall|r: usize, c: usize|
            is_ground(map, c as int, r as int) <==> exists|i: int| #[trigger] in_region(map, i, r, c),
        forall|i: int, j: int, r: usize, c: usize|
            i != j && #[trigger] in_region(map, i, r, c) ==> !#[trigger] in_region(map, j, r, c),
{
    let order = ground_order(map, map.width as nat);
    let regions = regions_of(map);
    lemma_ground_order(map, map.width as nat);
    lemma_cluster_partitions(order);
    assert forall|i: int, r: usize, c: usize| 0 <= i < regions.len() implies (#[trigger] lists(
        rows_of(regions[i]),
        r,
        c,
    ) <==> regions[i].contains((r, c))) by {
        lemma_rows_of_lists(regions[i]);
    }
    assert forall|r: usize, c: usize|
        is_ground(map, c as int, r as int) <==> exists|i: int| #[trigger] in_region(
            map,
            i,
            r,
            c,
        ) by {
        assert(held(regions, (r, c)) <==> order.contains((r, c)));
        if is_ground(map, c as int, r as int) {
            lemma_blocked_in_level(map, c as int, r + 1);
            assert(order.contains((r, c)));
            let i = choose|i: int| 0 <= i < regions.len() && (#[trigger] regions[i]).contains((r, c));
            assert(in_region(map, i, r, c));
        }
        if exists|i: int| #[trigger] in_region(map, i, r, c) {
            let i = choose|i: int| #[trigger] in_region(map, i, r, c);
            assert(regions[i].contains((r, c)));
            assert(held(regions, (r, c)));
        }
    }
    assert forall|i: int, j: int, r: usize, c: usize|
        i != j && #[trigger] in_region(map, i, r, c) implies !#[trigger] in_region(
        map,
        j,
        r,
        c,
    ) by {
        if in_region(map, j, r, c) {
            assert(regions[i].contains((r, c)));
            assert(regions[j].contains((r, c)));
            let a = choose|a: int| 0 <= a < regions[i].len() && regions[i][a] == (r, c);
            let b = choose|b: int| 0 <= b < regions[j].len() && regions[j][b] == (r, c);
            if i < j {
                assert(regions[i][a] != regions[j][b]);
            } else {
                assert(regions[j][b] != regions[i][a]);
            }
        }
    }
}

/// A jump target is neither blocked nor part of any region.
pub proof fn lemma_jump_targets_apart(map: LevelMap)
    requires
        layers_fit(map),
    ensures
        forall|r: usize, c: usize|
            is_jump_target(map, c as int, r as int) ==> !blocked(map, c as int, r as int),
        forall|i: int, r: usize, c: usize|
            is_jump_target(map, c as int, r as int) ==> !#[trigger] in_region(map, i, r, c),
{
    lemma_regions_partition_ground(map);
}

} // verus!

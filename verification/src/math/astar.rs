//! Shortest routes over a rectangular grid of open and blocked tiles.
//!
//! A cell is written `(column, row)`; the grid is stored row by row, so the
//! tile of cell `(x, y)` is `tiles[y][x]`.

use crate::math::search::{
    cost_at, known, lemma_cheapest_is_shortest, lemma_exhausted, lemma_pop, lemma_relax, links_ok,
    pred_at, relaxed, same_shape, progressed, queued, search_ok, settled, within,
};
use crate::math::tally::{lemma_table_blank, lemma_table_count, lemma_table_update, table_sum};
use crate::types::TileMapping;
use vstd::prelude::*;

verus! {

#[derive(Copy, Clone, Debug, PartialEq, Eq, Structural)]
pub enum TileType {
    Unpassable,
    Open,
}

/// An entry of the search frontier: a cell and the estimated length of the
/// shortest route through it.  The estimate is kept in 128 bits, wide enough
/// for the steps taken plus the distance still to go on any grid that fits in
/// memory.
#[derive(Copy, Clone, Eq, PartialEq)]
pub struct Location {
    position: (usize, usize),
    cost: u128,
}

impl Location {
    /// The cell this entry is for.
    pub closed spec fn cell(&self) -> (usize, usize) {
        self.position
    }

    /// The estimated length of the shortest route through the cell.
    pub closed spec fn estimate(&self) -> u128 {
        self.cost
    }
}

/// Every row is as long as the first one.
pub open spec fn grid_wf(tiles: Seq<Vec<TileType>>) -> bool {
    forall|y: int| 0 <= y < tiles.len() ==> (#[trigger] tiles[y])@.len() == tiles[0]@.len()
}

/// Number of columns; zero for a grid without rows.
pub open spec fn grid_width(tiles: Seq<Vec<TileType>>) -> nat {
    if tiles.len() == 0 {
        0
    } else {
        tiles[0]@.len()
    }
}

pub open spec fn in_grid(tiles: Seq<Vec<TileType>>, p: (usize, usize)) -> bool {
    p.1 < tiles.len() && p.0 < grid_width(tiles)
}

/// The cell lies inside the grid and can be walked through.
pub open spec fn is_open(tiles: Seq<Vec<TileType>>, p: (usize, usize)) -> bool {
    in_grid(tiles, p) && tiles[p.1 as int]@[p.0 as int] == TileType::Open
}

/// The two cells share an edge.
pub open spec fn adjacent(a: (usize, usize), b: (usize, usize)) -> bool {
    ||| (a.1 == b.1 && (a.0 + 1 == b.0 || b.0 + 1 == a.0))
    ||| (a.0 == b.0 && (a.1 + 1 == b.1 || b.1 + 1 == a.1))
}

/// Steps between two cells when only moves along an axis are counted.
pub open spec fn manhattan(a: (usize, usize), b: (usize, usize)) -> nat {
    (if a.0 <= b.0 {
        b.0 - a.0
    } else {
        a.0 - b.0
    } + if a.1 <= b.1 {
        b.1 - a.1
    } else {
        a.1 - b.1
    }) as nat
}

/// `route` leads from `start`, a cell of the grid that is not itself listed,
/// to `target`, its last cell: each step goes to an adjacent cell and every
/// listed cell is open.
pub open spec fn is_route(
    tiles: Seq<Vec<TileType>>,
    start: (usize, usize),
    target: (usize, usize),
    route: Seq<(usize, usize)>,
) -> bool {
    &&& in_grid(tiles, start)
    &&& route.len() > 0
    &&& route.last() == target
    &&& adjacent(start, route[0])
    &&& forall|i: int| 0 <= i < route.len() ==> is_open(tiles, #[trigger] route[i])
    &&& forall|i: int| 0 < i < route.len() ==> adjacent(route[i - 1], #[trigger] route[i])
}

/// The cell reached from `pos` by one step in direction `dir`: 0 left, 1 right,
/// 2 above, anything else below.  Stepping off the low edge stays in place.
pub open spec fn step(pos: (usize, usize), dir: int) -> (usize, usize) {
    if dir == 0 {
        (if pos.0 > 0 { (pos.0 - 1) as usize } else { pos.0 }, pos.1)
    } else if dir == 1 {
        (if pos.0 < usize::MAX { (pos.0 + 1) as usize } else { pos.0 }, pos.1)
    } else if dir == 2 {
        (pos.0, if pos.1 > 0 { (pos.1 - 1) as usize } else { pos.1 })
    } else {
        (pos.0, if pos.1 < usize::MAX { (pos.1 + 1) as usize } else { pos.1 })
    }
}

/// The step in direction `dir`, if it leads to another cell that is open.
pub open spec fn open_step(tiles: Seq<Vec<TileType>>, pos: (usize, usize), dir: int) -> Seq<
    (usize, usize),
> {
    if step(pos, dir) != pos && is_open(tiles, step(pos, dir)) {
        seq![step(pos, dir)]
    } else {
        seq![]
    }
}

/// The open cells around `pos`, in the order left, right, above, below.
pub open spec fn open_neighbours(tiles: Seq<Vec<TileType>>, pos: (usize, usize)) -> Seq<
    (usize, usize),
> {
    open_step(tiles, pos, 0) + open_step(tiles, pos, 1) + open_step(tiles, pos, 2) + open_step(
        tiles,
        pos,
        3,
    )
}

/// The listed neighbours are exactly the open cells that share an edge with
/// `pos`.
pub proof fn lemma_open_neighbours(tiles: Seq<Vec<TileType>>, pos: (usize, usize))
    ensures
        forall|n: (usize, usize)|
            open_neighbours(tiles, pos).contains(n) <==> adjacent(pos, n) && is_open(tiles, n),
{
    let a = open_step(tiles, pos, 0);
    let b = open_step(tiles, pos, 1);
    let c = open_step(tiles, pos, 2);
    let d = open_step(tiles, pos, 3);
    let ns = open_neighbours(tiles, pos);
    assert(ns == a + b + c + d);
    assert forall|n: (usize, usize)| ns.contains(n) implies adjacent(pos, n) && is_open(
        tiles,
        n,
    ) by {
        let i = choose|i: int| 0 <= i < ns.len() && ns[i] == n;
        if i < a.len() {
            assert(n == a[i]);
        } else if i < a.len() + b.len() {
            assert(n == b[i - a.len()]);
        } else if i < a.len() + b.len() + c.len() {
            assert(n == c[i - a.len() - b.len()]);
        } else {
            assert(n == d[i - a.len() - b.len() - c.len()]);
        }
    }
    assert forall|n: (usize, usize)| adjacent(pos, n) && is_open(tiles, n) implies ns.contains(
        n,
    ) by {
        if n == step(pos, 0) {
            assert(ns[0] == n);
        } else if n == step(pos, 1) {
            assert(ns[a.len() as int] == n);
        } else if n == step(pos, 2) {
            assert(ns[(a.len() + b.len()) as int] == n);
        } else {
            assert(n == step(pos, 3));
            assert(ns[(a.len() + b.len() + c.len()) as int] == n);
        }
    }
}

/// Manhattan distance from `location` to `target`.
pub fn distance_to_target(location: &(usize, usize), target: &(usize, usize)) -> (d: u128)
    ensures
        d == manhattan(*location, *target),
{
    let x_diff: usize = if location.0 <= target.0 {
        target.0 - location.0
    } else {
        location.0 - target.0
    };
    let y_diff: usize = if location.1 <= target.1 {
        target.1 - location.1
    } else {
        location.1 - target.1
    };
    x_diff as u128 + y_diff as u128
}

/// Collects the open cells next to `pos`: left, right, above, below.
pub fn get_neighbours(pos: &(usize, usize), tiles: &Vec<Vec<TileType>>) -> (neighbours: Vec<
    (usize, usize),
>)
    requires
        grid_wf(tiles@),
        in_grid(tiles@, *pos),
    ensures
        neighbours@ == open_neighbours(tiles@, *pos),
        forall|n: (usize, usize)|
            neighbours@.contains(n) <==> adjacent(*pos, n) && is_open(tiles@, n),
{
    let mut neighbours: Vec<(usize, usize)> = Vec::with_capacity(4);

    if pos.0 > 0 {
        let tile_type = &tiles[pos.1][pos.0 - 1];
        if *tile_type == TileType::Open {
            neighbours.push((pos.0 - 1, pos.1));
        }
    }
    if pos.0 < tiles[0].len() - 1 {
        let tile_type = &tiles[pos.1][pos.0 + 1];
        if *tile_type == TileType::Open {
            neighbours.push((pos.0 + 1, pos.1));
        }
    }
    if pos.1 > 0 {
        let tile_type = &tiles[pos.1 - 1][pos.0];
        if *tile_type == TileType::Open {
            neighbours.push((pos.0, pos.1 - 1));
        }
    }
    if pos.1 < tiles.len() - 1 {
        let tile_type = &tiles[pos.1 + 1][pos.0];
        if *tile_type == TileType::Open {
            neighbours.push((pos.0, pos.1 + 1));
        }
    }
    assert(neighbours@ =~= open_neighbours(tiles@, *pos));
    proof {
        lemma_open_neighbours(tiles@, *pos);
    }
    neighbours
}

/// Lays out a grid of `tiles_high` rows and `tiles_wide` columns in which a
/// cell is blocked exactly when `closed_tiles` lists it.
pub fn build_grid_for_map(
    closed_tiles: &TileMapping<usize>,
    tiles_wide: usize,
    tiles_high: usize,
) -> (tiles: Vec<Vec<TileType>>)
    ensures
        tiles@.len() == tiles_high,
        grid_wf(tiles@),
        grid_width(tiles@) == if tiles_high == 0 { 0 } else { tiles_wide as nat },
        forall|x: usize, y: usize|
            x < tiles_wide && y < tiles_high ==> (#[trigger] tiles@[y as int]@[x as int]
                == TileType::Unpassable <==> closed_tiles.has(y, x)),
{
    let mut tiles: Vec<Vec<TileType>> = Vec::with_capacity(tiles_high);
    let mut y: usize = 0;
    while y < tiles_high
        invariant
            y <= tiles_high,
            tiles@.len() == y,
            forall|j: int| 0 <= j < y ==> (#[trigger] tiles@[j])@.len() == tiles_wide,
            forall|i: usize, j: usize|
                i < tiles_wide && j < y ==> (#[trigger] tiles@[j as int]@[i as int]
                    == TileType::Unpassable <==> closed_tiles.has(j, i)),
        decreases tiles_high - y,
    {
        let mut row: Vec<TileType> = Vec::with_capacity(tiles_wide);
        let mut x: usize = 0;
        while x < tiles_wide
            invariant
                x <= tiles_wide,
                row@.len() == x,
                forall|i: usize|
                    i < x ==> (#[trigger] row@[i as int] == TileType::Unpassable
                        <==> closed_tiles.has(y, i)),
            decreases tiles_wide - x,
        {
            if closed_tiles.contains(&y, &x) {
                row.push(TileType::Unpassable);
            } else {
                row.push(TileType::Open);
            }
            x += 1;
        }
        tiles.push(row);
        y += 1;
    }
    tiles
}

/// A table with one cell per grid cell, each holding `fill`.
fn blank_table<T: Copy>(tiles: &Vec<Vec<TileType>>, fill: T) -> (table: Vec<Vec<T>>)
    requires
        grid_wf(tiles@),
    ensures
        same_shape(tiles@, table@),
        forall|y: int, x: int|
            0 <= y < table@.len() && 0 <= x < table@[y]@.len() ==> (#[trigger] table@[y]@[x])
                == fill,
{
    let mut table: Vec<Vec<T>> = Vec::new();
    let width: usize = if tiles.len() == 0 {
        0
    } else {
        tiles[0].len()
    };
    let mut y: usize = 0;
    while y < tiles.len()
        invariant
            y <= tiles.len(),
            table@.len() == y,
            width == grid_width(tiles@),
            forall|j: int| 0 <= j < y ==> (#[trigger] table@[j])@.len() == width,
            forall|j: int, i: int|
                0 <= j < table@.len() && 0 <= i < table@[j]@.len() ==> (#[trigger] table@[j]@[i])
                    == fill,
        decreases tiles.len() - y,
    {
        let mut row: Vec<T> = Vec::new();
        let mut x: usize = 0;
        while x < width
            invariant
                x <= width,
                row@.len() == x,
                forall|i: int| 0 <= i < x ==> (#[trigger] row@[i]) == fill,
            decreases width - x,
        {
            row.push(fill);
            x += 1;
        }
        table.push(row);
        y += 1;
    }
    table
}

fn set_cell<T>(table: &mut Vec<Vec<T>>, p: (usize, usize), v: T)
    requires
        p.1 < old(table)@.len(),
        p.0 < old(table)@[p.1 as int]@.len(),
    ensures
        final(table)@.len() == old(table)@.len(),
        forall|y: int|
            0 <= y < old(table)@.len() && y != p.1 ==> final(table)@[y] == old(table)@[y],
        final(table)@[p.1 as int]@ == old(table)@[p.1 as int]@.update(p.0 as int, v),
{
    table[p.1][p.0] = v;
}

/// Index of the first frontier entry with the least estimate.
fn cheapest(open: &Vec<Location>) -> (best: usize)
    requires
        open@.len() > 0,
    ensures
        best < open@.len(),
        forall|i: int| 0 <= i < open@.len() ==> open@[best as int].estimate() <= (
        #[trigger] open@[i]).estimate(),
        forall|i: int| 0 <= i < best ==> (#[trigger] open@[i]).estimate() > open@[best as int].estimate(),
{
    let mut best: usize = 0;
    let mut i: usize = 1;
    while i < open.len()
        invariant
            best < i <= open@.len(),
            forall|j: int| 0 <= j < i ==> open@[best as int].estimate() <= (
            #[trigger] open@[j]).estimate(),
            forall|j: int| 0 <= j < best ==> (#[trigger] open@[j]).estimate() > open@[best as int].estimate(),
        decreases open.len() - i,
    {
        if open[i].cost < open[best].cost {
            best = i;
        }
        i += 1;
    }
    best
}

/// Follows the recorded links from `target` back to `start` and returns the
/// cells passed, in walking order.
fn trace_route(
    tiles: &Vec<Vec<TileType>>,
    costs: &Vec<Vec<Option<u128>>>,
    preds: &Vec<Vec<(usize, usize)>>,
    start: (usize, usize),
    target: (usize, usize),
) -> (route: Vec<(usize, usize)>)
    requires
        same_shape(tiles@, costs@),
        same_shape(tiles@, preds@),
        links_ok(tiles@, costs@, preds@, start),
        cost_at(costs@, start) == Some(0u128),
        in_grid(tiles@, start),
        known(tiles@, costs@, target),
        target != start,
    ensures
        is_route(tiles@, start, target, route@),
        route@.len() <= cost_at(costs@, target).unwrap(),
{
    let mut back: Vec<(usize, usize)> = Vec::new();
    back.push(target);
    let mut cur = target;
    proof {
        let _ = pred_at(preds@, target);
    }
    loop
        invariant
            same_shape(tiles@, costs@),
            same_shape(tiles@, preds@),
            links_ok(tiles@, costs@, preds@, start),
            cost_at(costs@, start) == Some(0u128),
            in_grid(tiles@, start),
            known(tiles@, costs@, cur),
            cur != start,
            back@.len() >= 1,
            back@[0] == target,
            back@.last() == cur,
            forall|i: int| 0 <= i < back@.len() ==> is_open(tiles@, #[trigger] back@[i]),
            forall|i: int| 0 < i < back@.len() ==> adjacent(#[trigger] back@[i], back@[i - 1]),
            back@.len() + cost_at(costs@, cur).unwrap() <= cost_at(costs@, target).unwrap() + 1,
        ensures
            adjacent(start, cur),
            back@.len() >= 1,
            back@[0] == target,
            back@.last() == cur,
            forall|i: int| 0 <= i < back@.len() ==> is_open(tiles@, #[trigger] back@[i]),
            forall|i: int| 0 < i < back@.len() ==> adjacent(#[trigger] back@[i], back@[i - 1]),
            back@.len() <= cost_at(costs@, target).unwrap(),
        decreases cost_at(costs@, cur).unwrap(),
    {
        let p = preds[cur.1][cur.0];
        assert(p == pred_at(preds@, cur));
        if p.0 == start.0 && p.1 == start.1 {
            break;
        }
        proof {
            let _ = pred_at(preds@, p);
        }
        back.push(p);
        cur = p;
    }
    let mut route: Vec<(usize, usize)> = Vec::new();
    let mut i: usize = back.len();
    while i > 0
        invariant
            i <= back@.len(),
            route@.len() == back@.len() - i,
            forall|j: int| 0 <= j < route@.len() ==> #[trigger] route@[j] == back@[back@.len() - 1 - j],
        decreases i,
    {
        i -= 1;
        route.push(back[i]);
    }
    assert forall|j: int| 0 < j < route@.len() implies adjacent(
        route@[j - 1],
        #[trigger] route@[j],
    ) by {
        let k = back@.len() - j;
        assert(adjacent(back@[k], back@[k - 1]));
    }
    route
}

/// Searches a shortest route from `start_pos` to `target` over open cells,
/// stepping only between cells that share an edge.
///
/// The route lists the cells to walk through, without `start_pos` and ending
/// with `target`.  It is empty when no step is needed or none is possible:
/// when the two cells are the same, when `start_pos` lies outside the grid,
/// and when no chain of open cells leads to `target`, which includes a
/// target that is blocked or outside the grid.  Otherwise no route is
/// shorter than the one returned.
pub fn find_path(
    tiles: &Vec<Vec<TileType>>,
    start_pos: (usize, usize),
    target: (usize, usize),
) -> (route: Vec<(usize, usize)>)
    requires
        grid_wf(tiles@),
    ensures
        start_pos == target ==> route@.len() == 0,
        !is_open(tiles@, target) ==> route@.len() == 0,
        route@.len() > 0 ==> is_route(tiles@, start_pos, target, route@),
        start_pos != target ==> forall|other: Seq<(usize, usize)>| #[trigger]
            is_route(tiles@, start_pos, target, other) ==> 0 < route@.len() <= other.len(),
{
    if start_pos.0 == target.0 && start_pos.1 == target.1 {
        return Vec::new();
    }
    if start_pos.1 >= tiles.len() || start_pos.0 >= tiles[0].len() {
        return Vec::new();
    }
    let height: usize = tiles.len();
    let width: usize = tiles[0].len();
    let mut costs: Vec<Vec<Option<u128>>> = blank_table(tiles, None);
    let mut preds: Vec<Vec<(usize, usize)>> = blank_table(tiles, start_pos);
    let ghost blank = costs@;
    set_cell(&mut costs, start_pos, Some(0u128));
    let mut open: Vec<Location> = Vec::new();
    open.push(Location { position: start_pos, cost: distance_to_target(&start_pos, &target) });
    proof {
        lemma_table_blank(blank, false);
        lemma_table_update(blank, costs@, start_pos.1 as int, start_pos.0 as int, Some(0u128), false);
        assert forall|c: (usize, usize)| known(tiles@, costs@, c) implies c == start_pos by {
            if c != start_pos {
                if c.1 != start_pos.1 {
                    assert(costs@[c.1 as int] == blank[c.1 as int]);
                }
                assert(blank[c.1 as int]@[c.0 as int].is_none());
            }
        }
        assert(open@[0].cell() == start_pos);
        assert(queued(open@, start_pos, manhattan(start_pos, target) as int));
        assert(search_ok(tiles@, costs@, preds@, open@, start_pos, target, None));
    }
    while open.len() > 0
        invariant
            grid_wf(tiles@),
            height == tiles@.len(),
            width == grid_width(tiles@),
            search_ok(tiles@, costs@, preds@, open@, start_pos, target, None),
        decreases
            tiles@.len() * grid_width(tiles@) - table_sum(costs@, false),
            table_sum(costs@, true),
            open@.len(),
    {
        let best = cheapest(&open);
        let ghost before = open@;
        let ghost known0 = table_sum(costs@, false);
        let ghost spent0 = table_sum(costs@, true);
        let location = open.remove(best);
        let u = location.position;
        assert(location == before[best as int]);
        assert(u == before[best as int].cell());
        if u.0 == target.0 && u.1 == target.1 {
            let route = trace_route(tiles, &costs, &preds, start_pos, target);
            proof {
                assert forall|other: Seq<(usize, usize)>| #[trigger]
                    is_route(tiles@, start_pos, target, other) implies 0 < route@.len()
                    <= other.len() by {
                    lemma_cheapest_is_shortest(
                        tiles@,
                        costs@,
                        preds@,
                        before,
                        start_pos,
                        target,
                        best as int,
                        other,
                    );
                }
            }
            return route;
        }
        proof {
            lemma_pop(tiles@, costs@, preds@, before, start_pos, target, best as int);
            lemma_table_count(costs@, grid_width(tiles@));
        }
        let neighbours = get_neighbours(&u, tiles);
        let base: u128 = costs[u.1][u.0].unwrap();
        let mut j: usize = 0;
        while j < neighbours.len()
            invariant
                j <= neighbours@.len(),
                grid_wf(tiles@),
                height == tiles@.len(),
                width == grid_width(tiles@),
                search_ok(tiles@, costs@, preds@, open@, start_pos, target, Some(u)),
                known(tiles@, costs@, u),
                cost_at(costs@, u) == Some(base),
                forall|n: (usize, usize)| #[trigger]
                    neighbours@.contains(n) <==> adjacent(u, n) && is_open(tiles@, n),
                forall|i: int|
                    0 <= i < j ==> within(tiles@, costs@, #[trigger] neighbours@[i], base + 1),
                table_sum(costs@, false) <= tiles@.len() * grid_width(tiles@),
                known0 <= tiles@.len() * grid_width(tiles@),
                progressed(
                    table_sum(costs@, false),
                    table_sum(costs@, true),
                    open@.len(),
                    known0,
                    spent0,
                    before.len(),
                ),
            decreases neighbours.len() - j,
        {
            let n = neighbours[j];
            assert(neighbours@.contains(n));
            assert(adjacent(u, n) && is_open(tiles@, n));
            assert(base < table_sum(costs@, false));
            proof {
                assert(tiles@.len() * grid_width(tiles@) <= 0xFFFF_FFFF_FFFF_FFFF
                    * 0xFFFF_FFFF_FFFF_FFFF) by (nonlinear_arith)
                    requires
                        tiles@.len() <= 0xFFFF_FFFF_FFFF_FFFF,
                        grid_width(tiles@) <= 0xFFFF_FFFF_FFFF_FFFF,
                ;
            }
            let new_cost: u128 = base + 1;
            let old_cost: Option<u128> = costs[n.1][n.0];
            let improves = match old_cost {
                None => true,
                Some(c) => new_cost < c,
            };
            if improves {
                let ghost costs0 = costs@;
                let ghost preds0 = preds@;
                let ghost open0 = open@;
                let estimate: u128 = new_cost + distance_to_target(&n, &target);
                open.push(Location { position: n, cost: estimate });
                set_cell(&mut preds, n, u);
                set_cell(&mut costs, n, Some(new_cost));
                proof {
                    lemma_table_update(costs0, costs@, n.1 as int, n.0 as int, Some(new_cost), false);
                    lemma_table_update(costs0, costs@, n.1 as int, n.0 as int, Some(new_cost), true);
                    assert forall|c: (usize, usize)| in_grid(tiles@, c) && c != n implies cost_at(
                        costs@,
                        c,
                    ) == #[trigger] cost_at(costs0, c) by {
                        if c.1 != n.1 {
                            assert(costs@[c.1 as int] == costs0[c.1 as int]);
                        }
                    }
                    assert forall|c: (usize, usize)| in_grid(tiles@, c) && c != n implies pred_at(
                        preds@,
                        c,
                    ) == #[trigger] pred_at(preds0, c) by {
                        if c.1 != n.1 {
                            assert(preds@[c.1 as int] == preds0[c.1 as int]);
                        }
                    }
                    assert forall|y: int| 0 <= y < costs@.len() implies (#[trigger] costs@[y])@.len()
                        == grid_width(tiles@) by {
                        if y != n.1 {
                            assert(costs@[y] == costs0[y]);
                        }
                    }
                    assert forall|y: int| 0 <= y < preds@.len() implies (#[trigger] preds@[y])@.len()
                        == grid_width(tiles@) by {
                        if y != n.1 {
                            assert(preds@[y] == preds0[y]);
                        }
                    }
                    lemma_relax(
                        tiles@,
                        costs0,
                        preds0,
                        open0,
                        costs@,
                        preds@,
                        open@,
                        start_pos,
                        target,
                        u,
                        n,
                    );
                    lemma_table_count(costs@, grid_width(tiles@));
                    assert forall|i: int| 0 <= i < j + 1 implies within(
                        tiles@,
                        costs@,
                        #[trigger] neighbours@[i],
                        base + 1,
                    ) by {
                        if i < j {
                            assert(within(tiles@, costs0, neighbours@[i], base + 1));
                        }
                    }
                }
            }
            j += 1;
        }
        proof {
            assert forall|n: (usize, usize)| #[trigger]
                adjacent(u, n) && is_open(tiles@, n) implies within(
                tiles@,
                costs@,
                n,
                base + 1,
            ) by {
                assert(neighbours@.contains(n));
                let i = choose|i: int| 0 <= i < neighbours@.len() && neighbours@[i] == n;
                assert(within(tiles@, costs@, neighbours@[i], base + 1));
            }
            assert(relaxed(tiles@, costs@, u, base as int));
            assert(settled(tiles@, costs@, open@, target, u));
            assert forall|v: (usize, usize)| Some(v) != None::<(usize, usize)> implies #[trigger] settled(
                tiles@,
                costs@,
                open@,
                target,
                v,
            ) by {
                if v != u {
                    assert(Some(v) != Some(u));
                }
            }
        }
    }
    proof {
        assert(open@ =~= Seq::<Location>::empty());
        assert forall|other: Seq<(usize, usize)>| #[trigger]
            is_route(tiles@, start_pos, target, other) implies false by {
            lemma_exhausted(
                tiles@,
                costs@,
                preds@,
                start_pos,
                target,
                other,
                other.len() - 1,
            );
        }
    }
    Vec::new()
}

} // verus!

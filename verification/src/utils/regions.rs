//! Walkable regions: how ground tiles are grouped into them, and how a
//! group of tiles is kept as a mapping from rows to columns.

use crate::types::{lists, TileMapping};
use vstd::prelude::*;

verus! {

/// The columns that `rows` lists for row `y`, none if the row is missing.
pub open spec fn row_or_empty(rows: Map<usize, Seq<usize>>, y: usize) -> Seq<usize> {
    if rows.contains_key(y) {
        rows[y]
    } else {
        Seq::empty()
    }
}

/// The rows of a mapping after the column of `tile` is appended to its row.
pub open spec fn with_tile(rows: Map<usize, Seq<usize>>, tile: (usize, usize)) -> Map<
    usize,
    Seq<usize>,
> {
    rows.insert(
        tile.0,
        (if rows.contains_key(tile.0) {
            rows[tile.0]
        } else {
            Seq::<usize>::empty()
        }).push(tile.1),
    )
}

/// The `(row, column)` tiles as a mapping from each row to its columns, in
/// the order of the sequence.
pub open spec fn rows_of(tiles: Seq<(usize, usize)>) -> Map<usize, Seq<usize>>
    decreases tiles.len(),
{
    if tiles.len() == 0 {
        Map::empty()
    } else {
        with_tile(rows_of(tiles.drop_last()), tiles.last())
    }
}

/// Every row that the mapping lists has columns, in strictly ascending order.
pub open spec fn rows_ascend(rows: Map<usize, Seq<usize>>) -> bool {
    forall|y: usize| #[trigger]
        rows.contains_key(y) ==> {
            &&& rows[y].len() > 0
            &&& forall|a: int, b: int| 0 <= a < b < rows[y].len() ==> rows[y][a] < rows[y][b]
        }
}

/// The `rows` of column `col` as `(row, column)` pairs.
pub open spec fn in_column(rows: Seq<usize>, col: usize) -> Seq<(usize, usize)> {
    Seq::new(rows.len(), |i: int| (rows[i], col))
}

/// A tile `(row, column)` joins a region whose youngest tile is `last` when it
/// lies in the same column or the next one to the right, at most one row
/// above or below.
pub open spec fn joins(last: (usize, usize), tile: (usize, usize)) -> bool {
    &&& (tile.1 == last.1 || tile.1 == last.1 + 1)
    &&& tile.0 <= last.0 + 1
    &&& last.0 <= tile.0 + 1
}

/// The first region that `tile` can join, if there is one.
pub open spec fn first_joinable(regions: Seq<Seq<(usize, usize)>>, tile: (usize, usize)) -> Option<
    int,
>
    decreases regions.len(),
{
    if regions.len() == 0 {
        None
    } else {
        match first_joinable(regions.drop_last(), tile) {
            Some(i) => Some(i),
            None => if regions.last().len() > 0 && joins(regions.last().last(), tile) {
                Some(regions.len() - 1)
            } else {
                None
            },
        }
    }
}

/// Adds `tile` to the first region it can join, or opens a new region for it.
pub open spec fn place(regions: Seq<Seq<(usize, usize)>>, tile: (usize, usize)) -> Seq<
    Seq<(usize, usize)>,
> {
    match first_joinable(regions, tile) {
        Some(i) => regions.update(i, regions[i].push(tile)),
        None => regions.push(seq![tile]),
    }
}

/// Grows regions greedily from ground tiles taken in the given order.
pub open spec fn cluster(tiles: Seq<(usize, usize)>) -> Seq<Seq<(usize, usize)>>
    decreases tiles.len(),
{
    if tiles.len() == 0 {
        Seq::empty()
    } else {
        place(cluster(tiles.drop_last()), tiles.last())
    }
}

/// The tiles of the entries as `(row, column)` pairs, entry after entry.
pub open spec fn flat(entries: Seq<(usize, Seq<usize>)>) -> Seq<(usize, usize)>
    decreases entries.len(),
{
    if entries.len() == 0 {
        Seq::empty()
    } else {
        flat(entries.drop_last()) + in_column(entries.last().1, entries.last().0)
    }
}

/// The regions as sequences of tiles.
pub open spec fn unpack(regions: Seq<Vec<(usize, usize)>>) -> Seq<Seq<(usize, usize)>> {
    Seq::new(regions.len(), |i: int| regions[i]@)
}

/// The entries with their rows as sequences.
pub open spec fn entries_of(entries: Seq<(usize, Vec<usize>)>) -> Seq<(usize, Seq<usize>)> {
    Seq::new(entries.len(), |a: int| (entries[a].0, entries[a].1@))
}

/// Appends column `col` to row `row` of the mapping, adding the row if it is
/// missing.
pub fn add_tile(mapping: &mut TileMapping<usize>, row: usize, col: usize)
    ensures
        final(mapping)@ == with_tile(old(mapping)@, (row, col)),
{
    if mapping.contains_key(&row) {
        let xs = mapping.get_mut(&row).unwrap();
        xs.push(col);
    } else {
        let mut xs: Vec<usize> = Vec::new();
        xs.push(col);
        mapping.insert(row, xs);
    }
}

/// The tiles of a region as a mapping from each row to its columns.
pub fn to_mapping(region: &Vec<(usize, usize)>) -> (mapping: TileMapping<usize>)
    ensures
        mapping@ == rows_of(region@),
{
    let mut coords: TileMapping<usize> = TileMapping::new();
    let mut i: usize = 0;
    assert(region@.take(0) =~= Seq::empty());
    while i < region.len()
        invariant
            i <= region@.len(),
            coords@ == rows_of(region@.take(i as int)),
        decreases region.len() - i,
    {
        let (y, x) = region[i];
        add_tile(&mut coords, y, x);
        assert(region@.take(i + 1).drop_last() =~= region@.take(i as int));
        i += 1;
    }
    assert(region@.take(i as int) =~= region@);
    coords
}

/// Whether `tile` can join a region whose youngest tile is `last`.
pub fn can_join(last: (usize, usize), tile: (usize, usize)) -> (fits: bool)
    ensures
        fits == joins(last, tile),
{
    let near_column = tile.1 == last.1 || (last.1 < usize::MAX && tile.1 == last.1 + 1);
    let near_row = (tile.0 <= last.0 || tile.0 - last.0 == 1) && (last.0 <= tile.0 || last.0
        - tile.0 == 1);
    near_column && near_row
}

/// Adds `tile` to the first region it can join, or opens a new region for it.
pub fn place_tile(regions: &mut Vec<Vec<(usize, usize)>>, tile: (usize, usize))
    ensures
        unpack(final(regions)@) == place(unpack(old(regions)@), tile),
{
    let ghost before = unpack(regions@);
    let mut i: usize = 0;
    while i < regions.len()
        invariant
            i <= regions@.len(),
            unpack(regions@) == before,
            before == unpack(old(regions)@),
            first_joinable(before.take(i as int), tile).is_none(),
        decreases regions.len() - i,
    {
        let group = &regions[i];
        assert(before[i as int] == group@);
        assert(before.take(i + 1).drop_last() =~= before.take(i as int));
        if group.len() > 0 && can_join(group[group.len() - 1], tile) {
            proof {
                lemma_first_joinable_stays(before, tile, i + 1, i as int);
            }
            regions[i].push(tile);
            assert(unpack(regions@) =~= before.update(i as int, before[i as int].push(tile)));
            return;
        }
        i += 1;
    }
    assert(before.take(i as int) =~= before);
    let mut group: Vec<(usize, usize)> = Vec::new();
    group.push(tile);
    regions.push(group);
    assert(unpack(regions@) =~= before.push(seq![tile]));
}

/// Grows regions from the ground tiles, taken column by column and within a
/// column in the order of its rows.
pub fn grow_regions(entries: &Vec<(usize, Vec<usize>)>) -> (regions: Vec<Vec<(usize, usize)>>)
    ensures
        unpack(regions@) == cluster(flat(entries_of(entries@))),
{
    let mut regions: Vec<Vec<(usize, usize)>> = Vec::new();
    let ghost all = entries_of(entries@);
    let mut a: usize = 0;
    assert(all.take(0) =~= Seq::empty());
    assert(unpack(regions@) =~= Seq::empty());
    while a < entries.len()
        invariant
            a <= entries@.len(),
            all == entries_of(entries@),
            unpack(regions@) == cluster(flat(all.take(a as int))),
        decreases entries.len() - a,
    {
        let col = entries[a].0;
        let rows = &entries[a].1;
        let mut r: usize = 0;
        assert(in_column(rows@.take(0), col) =~= Seq::empty());
        assert(flat(all.take(a as int)) + Seq::<(usize, usize)>::empty() =~= flat(
            all.take(a as int),
        ));
        while r < rows.len()
            invariant
                r <= rows@.len(),
                a < entries@.len(),
                all == entries_of(entries@),
                col == entries@[a as int].0,
                rows == &entries@[a as int].1,
                unpack(regions@) == cluster(
                    flat(all.take(a as int)) + in_column(rows@.take(r as int), col),
                ),
            decreases rows.len() - r,
        {
            let ghost done = flat(all.take(a as int)) + in_column(rows@.take(r as int), col);
            let tile = (rows[r], col);
            place_tile(&mut regions, tile);
            proof {
                let next = flat(all.take(a as int)) + in_column(rows@.take(r + 1), col);
                assert(next =~= done.push(tile));
                assert(next.drop_last() =~= done);
            }
            r += 1;
        }
        proof {
            assert(rows@.take(r as int) =~= rows@);
            assert(all.take(a + 1).drop_last() =~= all.take(a as int));
            assert(all.take(a + 1).last() == (col, rows@));
        }
        a += 1;
    }
    assert(all.take(a as int) =~= all);
    regions
}

/// Once a region among the first ones can be joined, later regions do not
/// change the choice.
pub proof fn lemma_first_joinable_stays(
    regions: Seq<Seq<(usize, usize)>>,
    tile: (usize, usize),
    n: int,
    i: int,
)
    requires
        0 <= n <= regions.len(),
        first_joinable(regions.take(n), tile) == Some(i),
    ensures
        first_joinable(regions, tile) == Some(i),
    decreases regions.len() - n,
{
    if n < regions.len() {
        assert(regions.take(n + 1).drop_last() =~= regions.take(n));
        lemma_first_joinable_stays(regions, tile, n + 1, i);
    } else {
        assert(regions.take(n) =~= regions);
    }
}

/// A region chosen for joining is one of the regions.
pub proof fn lemma_first_joinable_range(regions: Seq<Seq<(usize, usize)>>, tile: (usize, usize))
    ensures
        match first_joinable(regions, tile) {
            Some(i) => 0 <= i < regions.len(),
            None => true,
        },
    decreases regions.len(),
{
    if regions.len() > 0 {
        lemma_first_joinable_range(regions.drop_last(), tile);
    }
}

/// Appending a tile adds that tile to what the rows list, and nothing else.
pub proof fn lemma_with_tile_lists(rows: Map<usize, Seq<usize>>, tile: (usize, usize))
    ensures
        forall|r: usize, c: usize| #[trigger]
            lists(with_tile(rows, tile), r, c) <==> lists(rows, r, c) || (r, c) == tile,
{
    let after = with_tile(rows, tile);
    let row = row_or_empty(rows, tile.0);
    assert(after[tile.0] == row.push(tile.1));
    assert forall|r: usize, c: usize| #[trigger]
        lists(after, r, c) <==> lists(rows, r, c) || (r, c) == tile by {
        if r == tile.0 {
            if c == tile.1 {
                assert(row.push(tile.1)[row.len() as int] == c);
            } else {
                if row.contains(c) {
                    let a = choose|a: int| 0 <= a < row.len() && row[a] == c;
                    assert(row.push(tile.1)[a] == c);
                }
                if row.push(tile.1).contains(c) {
                    let a = choose|a: int|
                        0 <= a < row.push(tile.1).len() && row.push(tile.1)[a] == c;
                    assert(row[a] == c);
                }
            }
        }
    }
}

/// Appending a column beyond all columns of its row keeps every row in
/// ascending order.
pub proof fn lemma_with_tile_ascends(rows: Map<usize, Seq<usize>>, tile: (usize, usize))
    requires
        rows_ascend(rows),
        forall|c: usize| lists(rows, tile.0, c) ==> c < tile.1,
    ensures
        rows_ascend(with_tile(rows, tile)),
{
    let after = with_tile(rows, tile);
    let row = row_or_empty(rows, tile.0);
    assert forall|y: usize| #[trigger] after.contains_key(y) implies {
        &&& after[y].len() > 0
        &&& forall|a: int, b: int| 0 <= a < b < after[y].len() ==> after[y][a] < after[y][b]
    } by {
        if y == tile.0 {
            assert(after[y] == row.push(tile.1));
            assert forall|a: int| 0 <= a < row.len() implies row[a] < tile.1 by {
                assert(row.contains(row[a]));
                assert(lists(rows, tile.0, row[a]));
            }
        } else {
            assert(rows.contains_key(y));
        }
    }
}

/// The mapping made of a sequence of tiles lists exactly those tiles.
pub proof fn lemma_rows_of_lists(tiles: Seq<(usize, usize)>)
    ensures
        forall|r: usize, c: usize| #[trigger] lists(rows_of(tiles), r, c) <==> tiles.contains((r, c)),
    decreases tiles.len(),
{
    if tiles.len() > 0 {
        let front = tiles.drop_last();
        lemma_rows_of_lists(front);
        lemma_with_tile_lists(rows_of(front), tiles.last());
        assert forall|r: usize, c: usize| #[trigger]
            lists(rows_of(tiles), r, c) <==> tiles.contains((r, c)) by {
            assert(lists(rows_of(front), r, c) <==> front.contains((r, c)));
            if front.contains((r, c)) {
                let a = choose|a: int| 0 <= a < front.len() && front[a] == (r, c);
                assert(tiles[a] == (r, c));
            }
            if tiles.contains((r, c)) {
                let a = choose|a: int| 0 <= a < tiles.len() && tiles[a] == (r, c);
                if a < front.len() {
                    assert(front[a] == (r, c));
                }
            }
            if (r, c) == tiles.last() {
                assert(tiles[tiles.len() - 1] == (r, c));
            }
        }
    } else {
        assert forall|r: usize, c: usize| #[trigger]
            lists(rows_of(tiles), r, c) <==> tiles.contains((r, c)) by {}
    }
}

/// One of the regions holds `tile`.
pub open spec fn held(regions: Seq<Seq<(usize, usize)>>, tile: (usize, usize)) -> bool {
    exists|i: int| 0 <= i < regions.len() && (#[trigger] regions[i]).contains(tile)
}

/// No tile is held by two regions.
pub open spec fn apart(regions: Seq<Seq<(usize, usize)>>) -> bool {
    forall|i: int, j: int, a: int, b: int|
        0 <= i < j < regions.len() && 0 <= a < regions[i].len() && 0 <= b < regions[j].len()
            ==> regions[i][a] != regions[j][b]
}

/// Growing regions from tiles that are all different puts each of them into
/// exactly one region, and nothing else into any.
pub proof fn lemma_cluster_partitions(tiles: Seq<(usize, usize)>)
    requires
        forall|a: int, b: int| 0 <= a < b < tiles.len() ==> tiles[a] != tiles[b],
    ensures
        forall|t: (usize, usize)| #[trigger] held(cluster(tiles), t) <==> tiles.contains(t),
        apart(cluster(tiles)),
    decreases tiles.len(),
{
    let now = cluster(tiles);
    if tiles.len() > 0 {
        let front = tiles.drop_last();
        let tile = tiles.last();
        let before = cluster(front);
        lemma_cluster_partitions(front);
        lemma_first_joinable_range(before, tile);
        assert(now == place(before, tile));
        assert(!front.contains(tile)) by {
            if front.contains(tile) {
                let a = choose|a: int| 0 <= a < front.len() && front[a] == tile;
                assert(tiles[a] != tiles[tiles.len() - 1]);
            }
        }
        assert(!held(before, tile));
        let slot: int = match first_joinable(before, tile) {
            Some(i) => i,
            None => before.len() as int,
        };
        assert(0 <= slot < now.len());
        assert(now.len() >= before.len());
        assert forall|i: int, a: int| 0 <= i < now.len() && 0 <= a < now[i].len() implies (
        #[trigger] now[i][a]) == tile || (i < before.len() && a < before[i].len() && before[i][a]
            == now[i][a]) by {}
        assert forall|i: int, a: int|
            0 <= i < before.len() && 0 <= a < before[i].len() implies i < now.len() && a
            < now[i].len() && (#[trigger] before[i][a]) == now[i][a] by {}
        assert forall|i: int, a: int|
            0 <= i < now.len() && 0 <= a < now[i].len() && (#[trigger] now[i][a])
                == tile implies i == slot by {
            if i != slot {
                assert(before[i][a] == tile);
                assert(before[i].contains(tile));
                assert(held(before, tile));
            }
        }
        assert(now[slot][now[slot].len() - 1] == tile);
        assert forall|t: (usize, usize)| #[trigger] held(now, t) <==> tiles.contains(t) by {
            assert(held(before, t) <==> front.contains(t));
            if held(now, t) {
                let i = choose|i: int| 0 <= i < now.len() && (#[trigger] now[i]).contains(t);
                let a = choose|a: int| 0 <= a < now[i].len() && now[i][a] == t;
                if now[i][a] == tile {
                    assert(tiles[tiles.len() - 1] == t);
                } else {
                    assert(before[i][a] == t);
                    assert(before[i].contains(t));
                    assert(held(before, t));
                    let b = choose|b: int| 0 <= b < front.len() && front[b] == t;
                    assert(tiles[b] == t);
                }
            }
            if tiles.contains(t) {
                let b = choose|b: int| 0 <= b < tiles.len() && tiles[b] == t;
                if b < front.len() {
                    assert(front[b] == t);
                    assert(held(before, t));
                    let i = choose|i: int|
                        0 <= i < before.len() && (#[trigger] before[i]).contains(t);
                    let a = choose|a: int| 0 <= a < before[i].len() && before[i][a] == t;
                    assert(now[i][a] == t);
                    assert(now[i].contains(t));
                } else {
                    assert(now[slot].contains(t));
                }
            }
        }
        assert forall|i: int, j: int, a: int, b: int|
            0 <= i < j < now.len() && 0 <= a < now[i].len() && 0 <= b < now[j].len() implies now[i][a]
            != now[j][b] by {
            if now[i][a] == tile {
                assert(i == slot);
                if now[j][b] == tile {
                    assert(j == slot);
                }
                assert(before[j][b] == now[j][b]);
                assert(before[j].contains(tile) ==> held(before, tile));
                if now[j][b] == tile {
                    assert(before[j].contains(tile));
                }
            } else if now[j][b] == tile {
                assert(before[i][a] == now[i][a]);
            } else {
                assert(before[i][a] == now[i][a]);
                assert(before[j][b] == now[j][b]);
            }
        }
    } else {
        assert forall|t: (usize, usize)| #[trigger] held(now, t) <==> tiles.contains(t) by {}
    }
}

} // verus!

//! The bookkeeping of a search in progress and the facts that make its
//! result a shortest route.

use crate::math::astar::{adjacent, grid_width, in_grid, is_open, is_route, manhattan, Location, TileType};
use crate::math::tally::table_sum;
use vstd::prelude::*;

verus! {

/// The cost table has one cell per grid cell.
pub open spec fn same_shape<T>(tiles: Seq<Vec<TileType>>, table: Seq<Vec<T>>) -> bool {
    &&& table.len() == tiles.len()
    &&& forall|y: int| 0 <= y < table.len() ==> (#[trigger] table[y])@.len() == grid_width(tiles)
}

pub open spec fn cost_at(costs: Seq<Vec<Option<u128>>>, p: (usize, usize)) -> Option<u128> {
    costs[p.1 as int]@[p.0 as int]
}

pub open spec fn pred_at(preds: Seq<Vec<(usize, usize)>>, p: (usize, usize)) -> (usize, usize) {
    preds[p.1 as int]@[p.0 as int]
}

/// The search has found some way to `p`.
pub open spec fn known(tiles: Seq<Vec<TileType>>, costs: Seq<Vec<Option<u128>>>, p: (usize, usize)) -> bool {
    in_grid(tiles, p) && cost_at(costs, p).is_some()
}

/// The search has found a way to `p` of at most `k` steps.
pub open spec fn within(
    tiles: Seq<Vec<TileType>>,
    costs: Seq<Vec<Option<u128>>>,
    p: (usize, usize),
    k: int,
) -> bool {
    known(tiles, costs, p) && cost_at(costs, p).unwrap() <= k
}

/// Every known cell but the start was reached from a known, adjacent cell
/// that is at least one step cheaper.
pub open spec fn links_ok(
    tiles: Seq<Vec<TileType>>,
    costs: Seq<Vec<Option<u128>>>,
    preds: Seq<Vec<(usize, usize)>>,
    start: (usize, usize),
) -> bool {
    forall|c: (usize, usize)|
        known(tiles, costs, c) && c != start ==> {
            let p = #[trigger] pred_at(preds, c);
            &&& known(tiles, costs, p)
            &&& adjacent(p, c)
            &&& is_open(tiles, c)
            &&& cost_at(costs, p).unwrap() + 1 <= cost_at(costs, c).unwrap()
        }
}

/// Every frontier entry is for a known cell and estimates no less than the
/// cell's recorded cost plus the distance still to go.
pub open spec fn frontier_ok(
    tiles: Seq<Vec<TileType>>,
    costs: Seq<Vec<Option<u128>>>,
    open: Seq<Location>,
    target: (usize, usize),
) -> bool {
    forall|i: int|
        0 <= i < open.len() ==> {
            let e = #[trigger] open[i];
            &&& known(tiles, costs, e.cell())
            &&& cost_at(costs, e.cell()).unwrap() + manhattan(e.cell(), target) <= e.estimate()
        }
}

/// The frontier holds an entry for `v` with estimate `f`.
pub open spec fn queued(open: Seq<Location>, v: (usize, usize), f: int) -> bool {
    exists|i: int| 0 <= i < open.len() && (#[trigger] open[i]).cell() == v && open[i].estimate() == f
}

/// Every open cell next to `v` is known within `k + 1` steps.
pub open spec fn relaxed(
    tiles: Seq<Vec<TileType>>,
    costs: Seq<Vec<Option<u128>>>,
    v: (usize, usize),
    k: int,
) -> bool {
    forall|n: (usize, usize)| #[trigger]
        adjacent(v, n) && is_open(tiles, n) ==> within(tiles, costs, n, k + 1)
}

/// A known cell is either waiting in the frontier at its recorded cost or
/// its neighbours have been brought up to date with that cost.
pub open spec fn settled(
    tiles: Seq<Vec<TileType>>,
    costs: Seq<Vec<Option<u128>>>,
    open: Seq<Location>,
    target: (usize, usize),
    v: (usize, usize),
) -> bool {
    known(tiles, costs, v) ==> {
        ||| queued(open, v, cost_at(costs, v).unwrap() + manhattan(v, target))
        ||| relaxed(tiles, costs, v, cost_at(costs, v).unwrap() as int)
    }
}

/// No recorded cost reaches the number of known cells.
pub open spec fn costs_bounded(tiles: Seq<Vec<TileType>>, costs: Seq<Vec<Option<u128>>>) -> bool {
    forall|c: (usize, usize)| #[trigger]
        known(tiles, costs, c) ==> cost_at(costs, c).unwrap() < table_sum(costs, false)
}

/// What holds of the tables between two steps of the search, with `skip`
/// the one cell whose neighbours may still be out of date.
pub open spec fn search_ok(
    tiles: Seq<Vec<TileType>>,
    costs: Seq<Vec<Option<u128>>>,
    preds: Seq<Vec<(usize, usize)>>,
    open: Seq<Location>,
    start: (usize, usize),
    target: (usize, usize),
    skip: Option<(usize, usize)>,
) -> bool {
    &&& same_shape(tiles, costs)
    &&& same_shape(tiles, preds)
    &&& in_grid(tiles, start)
    &&& start != target
    &&& cost_at(costs, start) == Some(0u128)
    &&& links_ok(tiles, costs, preds, start)
    &&& frontier_ok(tiles, costs, open, target)
    &&& costs_bounded(tiles, costs)
    &&& forall|v: (usize, usize)| Some(v) != skip ==> #[trigger] settled(tiles, costs, open, target, v)
    &&& known(tiles, costs, target) ==> exists|i: int|
        0 <= i < open.len() && (#[trigger] open[i]).cell() == target
}

/// The search has moved on since the frontier held `queue0` entries with
/// `known0` cells known at a total cost of `spent0`: a cell has become known,
/// or a cost has dropped, or only the popped entry has left the frontier.
pub open spec fn progressed(
    known: nat,
    spent: nat,
    queue: nat,
    known0: nat,
    spent0: nat,
    queue0: nat,
) -> bool {
    ||| known > known0
    ||| (known == known0 && spent < spent0)
    ||| (known == known0 && spent == spent0 && queue + 1 == queue0)
}

/// Along a route, the distance still to go never exceeds the steps left.
pub proof fn lemma_admissible(
    tiles: Seq<Vec<TileType>>,
    start: (usize, usize),
    target: (usize, usize),
    route: Seq<(usize, usize)>,
    j: int,
)
    requires
        is_route(tiles, start, target, route),
        0 <= j < route.len(),
    ensures
        manhattan(route[j], target) <= route.len() - 1 - j,
    decreases route.len() - j,
{
    if j < route.len() - 1 {
        lemma_admissible(tiles, start, target, route, j + 1);
        assert(adjacent(route[j + 1 - 1], route[j + 1]));
    }
}

/// When the cheapest frontier entry is for the target, the target's recorded
/// cost is no more than the length of any route to it.
pub proof fn lemma_cheapest_is_shortest(
    tiles: Seq<Vec<TileType>>,
    costs: Seq<Vec<Option<u128>>>,
    preds: Seq<Vec<(usize, usize)>>,
    open: Seq<Location>,
    start: (usize, usize),
    target: (usize, usize),
    best: int,
    route: Seq<(usize, usize)>,
)
    requires
        search_ok(tiles, costs, preds, open, start, target, None),
        0 <= best < open.len(),
        open[best].cell() == target,
        forall|i: int| 0 <= i < open.len() ==> open[best].estimate() <= (#[trigger] open[i]).estimate(),
        is_route(tiles, start, target, route),
    ensures
        within(tiles, costs, target, route.len() as int),
{
    let m = route.len() as int;
    assert(manhattan(target, target) == 0);
    assert(cost_at(costs, target).unwrap() <= open[best].estimate());
    if open[best].estimate() <= m {
    } else {
        // no frontier entry is as cheap as the route is long, so every cell
        // of the route has been brought up to date in turn
        assert(settled(tiles, costs, open, target, start));
        assert(manhattan(start, target) <= manhattan(route[0], target) + 1);
        lemma_admissible(tiles, start, target, route, 0);
        if queued(open, start, manhattan(start, target) as int) {
            let i = choose|i: int|
                0 <= i < open.len() && (#[trigger] open[i]).cell() == start && open[i].estimate()
                    == manhattan(start, target) as int;
            assert(open[best].estimate() <= open[i].estimate());
            assert(false);
        }
        assert(relaxed(tiles, costs, start, 0));
        assert(adjacent(start, route[0]) && is_open(tiles, route[0]));
        assert(within(tiles, costs, route[0], 1));
        lemma_route_prefix_known(tiles, costs, preds, open, start, target, best, route, m - 1);
    }
}

/// Helper of `lemma_cheapest_is_shortest`: walks the route cell by cell.
proof fn lemma_route_prefix_known(
    tiles: Seq<Vec<TileType>>,
    costs: Seq<Vec<Option<u128>>>,
    preds: Seq<Vec<(usize, usize)>>,
    open: Seq<Location>,
    start: (usize, usize),
    target: (usize, usize),
    best: int,
    route: Seq<(usize, usize)>,
    j: int,
)
    requires
        search_ok(tiles, costs, preds, open, start, target, None),
        0 <= best < open.len(),
        forall|i: int| 0 <= i < open.len() ==> open[best].estimate() <= (#[trigger] open[i]).estimate(),
        open[best].estimate() > route.len(),
        is_route(tiles, start, target, route),
        within(tiles, costs, route[0], 1),
        0 <= j < route.len(),
    ensures
        within(tiles, costs, route[j], j + 1),
    decreases j,
{
    if j > 0 {
        lemma_route_prefix_known(tiles, costs, preds, open, start, target, best, route, j - 1);
        let v = route[j - 1];
        let k = cost_at(costs, v).unwrap();
        assert(settled(tiles, costs, open, target, v));
        lemma_admissible(tiles, start, target, route, j - 1);
        if queued(open, v, k + manhattan(v, target)) {
            let i = choose|i: int|
                0 <= i < open.len() && (#[trigger] open[i]).cell() == v && open[i].estimate() == k
                    + manhattan(v, target);
            assert(open[best].estimate() <= open[i].estimate());
            assert(false);
        }
        assert(relaxed(tiles, costs, v, k as int));
        assert(adjacent(route[j - 1], route[j]));
        assert(adjacent(v, route[j]) && is_open(tiles, route[j]));
    }
}

/// With the frontier exhausted, every cell that a route passes is known.
pub proof fn lemma_exhausted(
    tiles: Seq<Vec<TileType>>,
    costs: Seq<Vec<Option<u128>>>,
    preds: Seq<Vec<(usize, usize)>>,
    start: (usize, usize),
    target: (usize, usize),
    route: Seq<(usize, usize)>,
    j: int,
)
    requires
        search_ok(tiles, costs, preds, Seq::<Location>::empty(), start, target, None),
        is_route(tiles, start, target, route),
        0 <= j < route.len(),
    ensures
        known(tiles, costs, route[j]),
    decreases j,
{
    let open = Seq::<Location>::empty();
    if j == 0 {
        assert(settled(tiles, costs, open, target, start));
        assert(relaxed(tiles, costs, start, 0));
        assert(adjacent(start, route[0]) && is_open(tiles, route[0]));
    } else {
        lemma_exhausted(tiles, costs, preds, start, target, route, j - 1);
        let v = route[j - 1];
        assert(settled(tiles, costs, open, target, v));
        assert(relaxed(tiles, costs, v, cost_at(costs, v).unwrap() as int));
        assert(adjacent(route[j - 1], route[j]));
        assert(adjacent(v, route[j]) && is_open(tiles, route[j]));
    }
}

/// Taking the entry at `best` out of the frontier keeps the tables in order,
/// except that the neighbours of its cell are now due for an update.
pub proof fn lemma_pop(
    tiles: Seq<Vec<TileType>>,
    costs: Seq<Vec<Option<u128>>>,
    preds: Seq<Vec<(usize, usize)>>,
    open: Seq<Location>,
    start: (usize, usize),
    target: (usize, usize),
    best: int,
)
    requires
        search_ok(tiles, costs, preds, open, start, target, None),
        0 <= best < open.len(),
        open[best].cell() != target,
    ensures
        search_ok(tiles, costs, preds, open.remove(best), start, target, Some(open[best].cell())),
{
    let rest = open.remove(best);
    let u = open[best].cell();
    assert forall|i: int| 0 <= i < rest.len() implies {
        let e = #[trigger] rest[i];
        &&& known(tiles, costs, e.cell())
        &&& cost_at(costs, e.cell()).unwrap() + manhattan(e.cell(), target) <= e.estimate()
    } by {
        if i < best {
            assert(rest[i] == open[i]);
        } else {
            assert(rest[i] == open[i + 1]);
        }
    }
    assert forall|v: (usize, usize)| Some(v) != Some(u) implies #[trigger] settled(
        tiles,
        costs,
        rest,
        target,
        v,
    ) by {
        assert(settled(tiles, costs, open, target, v));
        if known(tiles, costs, v) {
            let f = cost_at(costs, v).unwrap() + manhattan(v, target);
            if queued(open, v, f) {
                let i = choose|i: int|
                    0 <= i < open.len() && (#[trigger] open[i]).cell() == v && open[i].estimate()
                        == f;
                if i < best {
                    assert(rest[i] == open[i]);
                } else {
                    assert(rest[i - 1] == open[i]);
                }
                assert(queued(rest, v, f));
            }
        }
    }
    if known(tiles, costs, target) {
        let i = choose|i: int| 0 <= i < open.len() && (#[trigger] open[i]).cell() == target;
        if i < best {
            assert(rest[i] == open[i]);
        } else {
            assert(rest[i - 1] == open[i]);
        }
    }
}

/// Recording a cheaper way to `n` through `u`, and queueing `n` at that
/// cost, keeps the tables in order.
pub proof fn lemma_relax(
    tiles: Seq<Vec<TileType>>,
    costs: Seq<Vec<Option<u128>>>,
    preds: Seq<Vec<(usize, usize)>>,
    open: Seq<Location>,
    costs2: Seq<Vec<Option<u128>>>,
    preds2: Seq<Vec<(usize, usize)>>,
    open2: Seq<Location>,
    start: (usize, usize),
    target: (usize, usize),
    u: (usize, usize),
    n: (usize, usize),
)
    requires
        search_ok(tiles, costs, preds, open, start, target, Some(u)),
        known(tiles, costs, u),
        adjacent(u, n),
        is_open(tiles, n),
        cost_at(costs, n).is_none() || cost_at(costs, u).unwrap() + 1 < cost_at(costs, n).unwrap(),
        same_shape(tiles, costs2),
        same_shape(tiles, preds2),
        cost_at(costs2, n) == Some((cost_at(costs, u).unwrap() + 1) as u128),
        cost_at(costs, u).unwrap() + 1 <= u128::MAX,
        forall|c: (usize, usize)|
            in_grid(tiles, c) && c != n ==> cost_at(costs2, c) == #[trigger] cost_at(costs, c),
        pred_at(preds2, n) == u,
        forall|c: (usize, usize)|
            in_grid(tiles, c) && c != n ==> pred_at(preds2, c) == #[trigger] pred_at(preds, c),
        open2.len() == open.len() + 1,
        forall|i: int| 0 <= i < open.len() ==> open2[i] == open[i],
        open2[open.len() as int].cell() == n,
        open2[open.len() as int].estimate() == cost_at(costs, u).unwrap() + 1 + manhattan(
            n,
            target,
        ),
        table_sum(costs2, false) >= table_sum(costs, false),
        cost_at(costs, n).is_none() ==> table_sum(costs2, false) == table_sum(costs, false) + 1,
    ensures
        search_ok(tiles, costs2, preds2, open2, start, target, Some(u)),
        forall|m: (usize, usize), k: int|
            within(tiles, costs, m, k) ==> #[trigger] within(tiles, costs2, m, k),
        within(tiles, costs2, n, cost_at(costs, u).unwrap() + 1),
        cost_at(costs2, u) == cost_at(costs, u),
{
    let fresh = (cost_at(costs, u).unwrap() + 1) as u128;
    assert(n != u);
    assert(n != start);
    assert forall|c: (usize, usize)| in_grid(tiles, c) implies (known(tiles, costs, c) ==> known(
        tiles,
        costs2,
        c,
    )) && (known(tiles, costs2, c) && c != n ==> known(tiles, costs, c)) by {
        if c != n {
            assert(cost_at(costs2, c) == cost_at(costs, c));
        }
    }
    assert forall|m: (usize, usize), k: int| within(tiles, costs, m, k) implies #[trigger] within(
        tiles,
        costs2,
        m,
        k,
    ) by {
        if m != n {
            assert(cost_at(costs2, m) == cost_at(costs, m));
        }
    }
    assert forall|c: (usize, usize)| known(tiles, costs2, c) && c != start implies {
        let p = #[trigger] pred_at(preds2, c);
        &&& known(tiles, costs2, p)
        &&& adjacent(p, c)
        &&& is_open(tiles, c)
        &&& cost_at(costs2, p).unwrap() + 1 <= cost_at(costs2, c).unwrap()
    } by {
        if c == n {
            assert(cost_at(costs2, u) == cost_at(costs, u));
        } else {
            assert(cost_at(costs2, c) == cost_at(costs, c));
            assert(pred_at(preds2, c) == pred_at(preds, c));
            assert(known(tiles, costs, c));
            let p = pred_at(preds, c);
            assert(known(tiles, costs, p));
            if p != n {
                assert(cost_at(costs2, p) == cost_at(costs, p));
            }
        }
    }
    assert forall|i: int| 0 <= i < open2.len() implies {
        let e = #[trigger] open2[i];
        &&& known(tiles, costs2, e.cell())
        &&& cost_at(costs2, e.cell()).unwrap() + manhattan(e.cell(), target) <= e.estimate()
    } by {
        if i < open.len() {
            assert(open2[i] == open[i]);
            let c = open[i].cell();
            assert(known(tiles, costs, c));
            if c != n {
                assert(cost_at(costs2, c) == cost_at(costs, c));
            }
        }
    }
    assert forall|c: (usize, usize)| #[trigger] known(tiles, costs2, c) implies cost_at(
        costs2,
        c,
    ).unwrap() < table_sum(costs2, false) by {
        if c != n {
            assert(cost_at(costs2, c) == cost_at(costs, c));
            assert(known(tiles, costs, c));
        } else {
            assert(cost_at(costs, u).unwrap() < table_sum(costs, false));
            if cost_at(costs, n).is_some() {
                assert(known(tiles, costs, n));
            }
        }
    }
    assert forall|v: (usize, usize)| Some(v) != Some(u) implies #[trigger] settled(
        tiles,
        costs2,
        open2,
        target,
        v,
    ) by {
        if known(tiles, costs2, v) {
            if v == n {
                assert(open2[open.len() as int].cell() == n);
                assert(queued(open2, v, cost_at(costs2, v).unwrap() + manhattan(v, target)));
            } else {
                assert(cost_at(costs2, v) == cost_at(costs, v));
                assert(settled(tiles, costs, open, target, v));
                let k = cost_at(costs, v).unwrap();
                let f = k + manhattan(v, target);
                if queued(open, v, f) {
                    let i = choose|i: int|
                        0 <= i < open.len() && (#[trigger] open[i]).cell() == v
                            && open[i].estimate() == f;
                    assert(open2[i] == open[i]);
                    assert(queued(open2, v, f));
                } else {
                    assert(relaxed(tiles, costs, v, k as int));
                    assert forall|m: (usize, usize)| #[trigger]
                        adjacent(v, m) && is_open(tiles, m) implies within(
                        tiles,
                        costs2,
                        m,
                        k + 1,
                    ) by {
                        assert(within(tiles, costs, m, k + 1));
                    }
                }
            }
        }
    }
    if known(tiles, costs2, target) {
        if target == n {
            assert(open2[open.len() as int].cell() == target);
        } else {
            assert(cost_at(costs2, target) == cost_at(costs, target));
            let i = choose|i: int| 0 <= i < open.len() && (#[trigger] open[i]).cell() == target;
            assert(open2[i] == open[i]);
        }
    }
    assert(cost_at(costs2, start) == cost_at(costs, start));
}

} // verus!

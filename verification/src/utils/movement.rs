//! Distances between tiles.

use vstd::prelude::*;

verus! {

/// Distance between the two coordinates `a` and `b`.
pub open spec fn gap(a: usize, b: usize) -> nat {
    if a <= b {
        (b - a) as nat
    } else {
        (a - b) as nat
    }
}

/// Distance between two tiles: the sum of the gaps along both axes when
/// `total`, else the larger of the two.
pub open spec fn tile_distance(from: (usize, usize), to: (usize, usize), total: bool) -> nat {
    let x_diff = gap(from.0, to.0);
    let y_diff = gap(from.1, to.1);
    if total {
        x_diff + y_diff
    } else if x_diff >= y_diff {
        x_diff
    } else {
        y_diff
    }
}

/// Distance from `from` to `to`, summed over both axes when `total` and the
/// larger of the two gaps otherwise.  A sum too large for the machine word is
/// returned as the largest word.
pub fn distance_to_tile(from: &(usize, usize), to: &(usize, usize), total: bool) -> (d: usize)
    ensures
        d == if tile_distance(*from, *to, total) <= usize::MAX {
            tile_distance(*from, *to, total)
        } else {
            usize::MAX as nat
        },
{
    let y_diff: usize = if from.1 <= to.1 {
        to.1 - from.1
    } else {
        from.1 - to.1
    };
    let x_diff: usize = if from.0 <= to.0 {
        to.0 - from.0
    } else {
        from.0 - to.0
    };
    if total {
        return x_diff.saturating_add(y_diff);
    }
    if x_diff >= y_diff {
        x_diff
    } else {
        y_diff
    }
}

} // verus!

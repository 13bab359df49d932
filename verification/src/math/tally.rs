//! Sums over the cost table of a search, used to bound the costs it records
//! and to show that the search ends.

use vstd::prelude::*;

verus! {

/// What one cell adds to a sum: its cost when `costly`, else one for being
/// known at all.
pub open spec fn weight(cell: Option<u128>, costly: bool) -> nat {
    match cell {
        None => 0,
        Some(c) => if costly {
            c as nat
        } else {
            1
        },
    }
}

pub open spec fn row_sum(row: Seq<Option<u128>>, costly: bool) -> nat
    decreases row.len(),
{
    if row.len() == 0 {
        0
    } else {
        row_sum(row.drop_last(), costly) + weight(row.last(), costly)
    }
}

pub open spec fn table_sum(table: Seq<Vec<Option<u128>>>, costly: bool) -> nat
    decreases table.len(),
{
    if table.len() == 0 {
        0
    } else {
        table_sum(table.drop_last(), costly) + row_sum(table.last()@, costly)
    }
}

pub proof fn lemma_row_update(row: Seq<Option<u128>>, i: int, v: Option<u128>, costly: bool)
    requires
        0 <= i < row.len(),
    ensures
        row_sum(row.update(i, v), costly) + weight(row[i], costly) == row_sum(row, costly)
            + weight(v, costly),
    decreases row.len(),
{
    if i == row.len() - 1 {
        assert(row.update(i, v).drop_last() =~= row.drop_last());
    } else {
        lemma_row_update(row.drop_last(), i, v, costly);
        assert(row.update(i, v).drop_last() =~= row.drop_last().update(i, v));
    }
}

/// Changing one cell of the table changes the sum by the difference of the
/// two weights.
pub proof fn lemma_table_update(
    before: Seq<Vec<Option<u128>>>,
    after: Seq<Vec<Option<u128>>>,
    y: int,
    x: int,
    v: Option<u128>,
    costly: bool,
)
    requires
        after.len() == before.len(),
        0 <= y < before.len(),
        0 <= x < before[y]@.len(),
        after[y]@ == before[y]@.update(x, v),
        forall|j: int| 0 <= j < before.len() && j != y ==> after[j] == before[j],
    ensures
        table_sum(after, costly) + weight(before[y]@[x], costly) == table_sum(before, costly)
            + weight(v, costly),
    decreases before.len(),
{
    if y == before.len() - 1 {
        assert(after.drop_last() =~= before.drop_last());
        lemma_row_update(before[y]@, x, v, costly);
    } else {
        lemma_table_update(before.drop_last(), after.drop_last(), y, x, v, costly);
    }
}

pub proof fn lemma_row_count(row: Seq<Option<u128>>)
    ensures
        row_sum(row, false) <= row.len(),
    decreases row.len(),
{
    if row.len() > 0 {
        lemma_row_count(row.drop_last());
    }
}

/// A table of rows of `width` cells knows at most `rows * width` cells.
pub proof fn lemma_table_count(table: Seq<Vec<Option<u128>>>, width: nat)
    requires
        forall|y: int| 0 <= y < table.len() ==> (#[trigger] table[y])@.len() == width,
    ensures
        table_sum(table, false) <= table.len() * width,
    decreases table.len(),
{
    if table.len() > 0 {
        lemma_table_count(table.drop_last(), width);
        lemma_row_count(table.last()@);
        assert(table.len() * width == (table.len() - 1) * width + width) by (nonlinear_arith);
    } else {
        assert(table.len() * width == 0) by (nonlinear_arith)
            requires
                table.len() == 0,
        ;
    }
}

/// A table without a known cell sums to zero.
pub proof fn lemma_table_blank(table: Seq<Vec<Option<u128>>>, costly: bool)
    requires
        forall|y: int, x: int|
            0 <= y < table.len() && 0 <= x < table[y]@.len() ==> (#[trigger] table[y]@[x]).is_none(),
    ensures
        table_sum(table, costly) == 0,
    decreases table.len(),
{
    if table.len() > 0 {
        lemma_table_blank(table.drop_last(), costly);
        lemma_row_blank(table.last()@, costly);
    }
}

pub proof fn lemma_row_blank(row: Seq<Option<u128>>, costly: bool)
    requires
        forall|x: int| 0 <= x < row.len() ==> (#[trigger] row[x]).is_none(),
    ensures
        row_sum(row, costly) == 0,
    decreases row.len(),
{
    if row.len() > 0 {
        lemma_row_blank(row.drop_last(), costly);
    }
}

} // verus!

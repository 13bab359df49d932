//! Shared plain data: tile mappings, the turn marker and world positions.

use std::collections::HashMap;
use std::hash::Hash;
use vstd::prelude::*;
use vstd::std_specs::hash::*;

verus! {

broadcast use vstd::std_specs::hash::group_hash_axioms;

/// Which side currently holds the right to act.
#[derive(Clone, Copy, Debug, PartialEq, Eq, Structural)]
pub enum Turn {
    Player,
    Enemy,
}

/// A position in world space, measured in pixels with the y axis pointing up.
#[derive(Clone, Copy, Debug, PartialEq, Eq, Structural)]
pub struct Position {
    pub x: i32,
    pub y: i32,
}

/// One layer of a level: its name and its cells row by row, zero for an empty
/// cell.
#[derive(Debug)]
pub struct Layer {
    pub name: String,
    pub tiles: Vec<Vec<u32>>,
}

/// A loaded level: its size in tiles, the size of a tile in pixels and its
/// layers.
#[derive(Debug)]
pub struct LevelMap {
    pub width: u32,
    pub height: u32,
    pub tile_width: u32,
    pub tile_height: u32,
    pub layers: Vec<Layer>,
}

/// Tiles stored row by row: each key is a row, its value the columns present
/// in that row, in the order in which they were added.
#[derive(Debug)]
pub struct TileMapping<N: Eq + Hash>(pub HashMap<N, Vec<N>>);

/// The rows list column `x` in row `y`.
pub open spec fn lists(rows: Map<usize, Seq<usize>>, y: usize, x: usize) -> bool {
    rows.contains_key(y) && rows[y].contains(x)
}

impl View for TileMapping<usize> {
    type V = Map<usize, Seq<usize>>;

    /// The rows present, each with its columns in insertion order.
    open spec fn view(&self) -> Map<usize, Seq<usize>> {
        Map::new(|y: usize| self.0@.contains_key(y), |y: usize| self.0@[y]@)
    }
}

/// `HashMap::get_mut` of the standard library: hands out the value stored
/// under `k`, if any.  Whatever the caller writes through the reference is
/// what the map holds under `k` afterwards; no other key is touched.
#[verifier::external_body]
fn row_mut<'a>(m: &'a mut HashMap<usize, Vec<usize>>, k: &usize) -> (result: Option<
    &'a mut Vec<usize>,
>)
    ensures
        match result {
            Some(v) => {
                &&& old(m)@.contains_key(*k)
                &&& *v == old(m)@[*k]
                &&& final(m)@ == old(m)@.insert(*k, *final(v))
            },
            None => !old(m)@.contains_key(*k) && final(m)@ == old(m)@,
        },
{
    m.get_mut(k)
}

/// Linear search for `x` in `xs`.
pub fn columns_contain(xs: &Vec<usize>, x: usize) -> (found: bool)
    ensures
        found == xs@.contains(x),
{
    let mut i: usize = 0;
    while i < xs.len()
        invariant
            i <= xs.len(),
            forall|j: int| 0 <= j < i ==> xs@[j] != x,
        decreases xs.len() - i,
    {
        if xs[i] == x {
            return true;
        }
        i += 1;
    }
    false
}

impl TileMapping<usize> {
    /// Whether the tile in column `x` of row `y` is part of the mapping.
    pub open spec fn has(&self, y: usize, x: usize) -> bool {
        lists(self@, y, x)
    }

    /// An empty mapping.
    pub fn new() -> (m: TileMapping<usize>)
        ensures
            m@ == Map::<usize, Seq<usize>>::empty(),
    {
        let m = TileMapping(HashMap::new());
        assert(m@ =~= Map::<usize, Seq<usize>>::empty());
        m
    }

    pub fn contains(&self, y: &usize, x: &usize) -> (found: bool)
        ensures
            found == self.has(*y, *x),
    {
        if let Some(xs) = self.0.get(y) {
            if columns_contain(xs, *x) {
                return true;
            }
        }
        return false;
    }

    pub fn contains_key(&self, key: &usize) -> (found: bool)
        ensures
            found == self@.contains_key(*key),
    {
        self.0.contains_key(key)
    }

    pub fn get(&self, key: &usize) -> (row: Option<&Vec<usize>>)
        ensures
            match row {
                Some(xs) => self@.contains_key(*key) && xs@ == self@[*key],
                None => !self@.contains_key(*key),
            },
    {
        self.0.get(key)
    }

    /// Hands out the columns of row `key` for writing; the mapping afterwards
    /// holds whatever was written, and every other row as before.
    pub fn get_mut(&mut self, key: &usize) -> (row: Option<&mut Vec<usize>>)
        ensures
            match row {
                Some(xs) => {
                    &&& old(self)@.contains_key(*key)
                    &&& xs@ == old(self)@[*key]
                    &&& final(self)@ =~= old(self)@.insert(*key, final(xs)@)
                },
                None => !old(self)@.contains_key(*key) && final(self)@ =~= old(self)@,
            },
    {
        row_mut(&mut self.0, key)
    }

    /// Stores `value` as the columns of row `key`, replacing what was there.
    pub fn insert(&mut self, key: usize, value: Vec<usize>)
        ensures
            final(self)@ == old(self)@.insert(key, value@),
    {
        self.0.insert(key, value);
        assert(self@ =~= old(self)@.insert(key, value@));
    }
}

} // verus!

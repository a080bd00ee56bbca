//! Grid cells, the cell hash and the folding of hashes into keys.
use vstd::prelude::*;
use vstd::arithmetic::div_mod::lemma_add_mod_noop;

verus! {

/// Multiplier applied to the x coordinate of a cell when hashing.
pub const HASH_K1: u32 = 15823;

/// Multiplier applied to the y coordinate of a cell when hashing.
pub const HASH_K2: u32 = 9737333;

/// Number of cells in the block scanned around a particle.
pub const NEIGHBORHOOD_SIZE: usize = 9;

/// A pair of coordinates; for grid cells, `Point(x, y)` with `i32` parts.
#[derive(Clone, Copy, Debug, PartialEq, Eq)]
pub struct Point<T>(pub T, pub T);

/// The hash of a cell: `x as u32 * K1 + y as u32 * K2`, wrapping modulo 2^32.
pub open spec fn cell_hash(cell: Point<i32>) -> u32 {
    (((cell.0 as u32) as nat * HASH_K1 as nat + (cell.1 as u32) as nat * HASH_K2 as nat)
        % 0x1_0000_0000) as u32
}

/// The offset of the `i`-th cell of the 3x3 block, row by row from the top left:
/// `(-1, 1), (0, 1), (1, 1), (-1, 0), (0, 0), (1, 0), (-1, -1), (0, -1), (1, -1)`.
pub open spec fn neighbor_offset(i: int) -> Point<i32> {
    Point((i % 3 - 1) as i32, (1 - i / 3) as i32)
}

/// The cell at `offset` from `cell`; coordinates wrap at the ends of `i32`.
pub open spec fn offset_cell(cell: Point<i32>, offset: Point<i32>) -> Point<i32> {
    Point(
        vstd::wrapping::i32_specs::wrapping_add(cell.0, offset.0),
        vstd::wrapping::i32_specs::wrapping_add(cell.1, offset.1),
    )
}

/// The `i`-th cell of the 3x3 block centred on `cell`.
pub open spec fn neighbor_cell(cell: Point<i32>, i: int) -> Point<i32> {
    offset_cell(cell, neighbor_offset(i))
}

/// Hashes a cell coordinate. Overflow wraps; it is part of the definition.
pub fn hash_cell(cell: Point<i32>) -> (r: u32)
    ensures
        r == cell_hash(cell),
{
    let x = cell.0 as u32;
    let y = cell.1 as u32;
    let a = x.wrapping_mul(HASH_K1);
    let b = y.wrapping_mul(HASH_K2);
    proof {
        lemma_add_mod_noop(x as int * HASH_K1 as int, y as int * HASH_K2 as int, 0x1_0000_0000);
    }
    a.wrapping_add(b)
}

/// Folds a hash into the key space `0..table_size`.
pub fn key_of(hash: u32, table_size: u32) -> (r: u32)
    requires
        table_size > 0,
    ensures
        r == hash % table_size,
        r < table_size,
{
    hash % table_size
}

/// The offset of the `i`-th cell of the 3x3 block around a cell.
pub fn neighbor_offset_at(i: usize) -> (r: Point<i32>)
    requires
        i < NEIGHBORHOOD_SIZE,
    ensures
        r == neighbor_offset(i as int),
{
    Point((i % 3) as i32 - 1, 1 - (i / 3) as i32)
}

/// The cell at `offset` from `cell`, wrapping at the ends of `i32`.
pub fn add_offset(cell: Point<i32>, offset: Point<i32>) -> (r: Point<i32>)
    ensures
        r == offset_cell(cell, offset),
{
    Point(cell.0.wrapping_add(offset.0), cell.1.wrapping_add(offset.1))
}

} // verus!

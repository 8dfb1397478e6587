//! Geometry of the 9x9 grid: rows, columns, boxes, units and the peer
//! relation. Cells are addressed by an index in 0..81, row-major. There are
//! 27 units: rows 0..9, then columns 9..18, then boxes 18..27. Two distinct
//! cells are peers when they share a row, a column or a box; every cell has
//! exactly 20 peers.

use vstd::prelude::*;

verus! {

/// Row of a cell index.
pub open spec fn spec_row(i: int) -> int {
    i / 9
}

/// Column of a cell index.
pub open spec fn spec_col(i: int) -> int {
    i % 9
}

/// Box (3x3 block) of a cell index.
pub open spec fn spec_box(i: int) -> int {
    (spec_row(i) / 3) * 3 + spec_col(i) / 3
}

/// Two distinct cells sharing a row, column or box.
pub open spec fn is_peer(i: int, j: int) -> bool {
    &&& 0 <= i < 81
    &&& 0 <= j < 81
    &&& i != j
    &&& (spec_row(i) == spec_row(j) || spec_col(i) == spec_col(j) || spec_box(i) == spec_box(j))
}

/// The `k`-th cell of unit `u`: units 0..9 are the rows, 9..18 the columns,
/// 18..27 the boxes, each listing its cells in reading order.
pub open spec fn unit_cell(u: int, k: int) -> int {
    if u < 9 {
        u * 9 + k
    } else if u < 18 {
        k * 9 + (u - 9)
    } else {
        ((u - 18) / 3 * 3 + k / 3) * 9 + ((u - 18) % 3 * 3 + k % 3)
    }
}

/// Every unit cell is a valid index, and cells of one unit are distinct.
pub proof fn lemma_unit_cell_range(u: int, k: int)
    requires
        0 <= u < 27,
        0 <= k < 9,
    ensures
        0 <= unit_cell(u, k) < 81,
{
}

/// Row of a cell index.
pub fn cell_row(i: usize) -> (r: usize)
    requires
        i < 81,
    ensures
        r == spec_row(i as int),
        r < 9,
{
    i / 9
}

/// Column of a cell index.
pub fn cell_col(i: usize) -> (c: usize)
    requires
        i < 81,
    ensures
        c == spec_col(i as int),
        c < 9,
{
    i % 9
}

/// Box of a cell index.
pub fn cell_box(i: usize) -> (b: usize)
    requires
        i < 81,
    ensures
        b == spec_box(i as int),
        b < 9,
{
    (i / 9 / 3) * 3 + (i % 9) / 3
}

/// The `k`-th cell of unit `u`.
pub fn unit_cell_at(u: usize, k: usize) -> (i: usize)
    requires
        u < 27,
        k < 9,
    ensures
        i == unit_cell(u as int, k as int),
        i < 81,
{
    if u < 9 {
        u * 9 + k
    } else if u < 18 {
        k * 9 + (u - 9)
    } else {
        ((u - 18) / 3 * 3 + k / 3) * 9 + ((u - 18) % 3 * 3 + k % 3)
    }
}

/// Whether two cells are peers (share a row, column or box without being the
/// same cell).
pub fn are_peers(i1: usize, i2: usize) -> (r: bool)
    requires
        i1 < 81,
        i2 < 81,
    ensures
        r == is_peer(i1 as int, i2 as int),
{
    if i1 == i2 {
        return false;
    }
    let r1 = i1 / 9;
    let c1 = i1 % 9;
    let r2 = i2 / 9;
    let c2 = i2 % 9;
    if r1 == r2 || c1 == c2 {
        return true;
    }
    let b1 = (r1 / 3) * 3 + (c1 / 3);
    let b2 = (r2 / 3) * 3 + (c2 / 3);
    b1 == b2
}

} // verus!

//! Backtracking solver used by the puzzle generator: counts the solutions
//! of a grid (capped at two, which is enough to decide uniqueness) and
//! completes a grid into a full solution, trying digits in a caller-given
//! order so that a shuffled order yields a random solution.

use vstd::prelude::*;

use crate::board::{Board, grid_valid, full_solution_of};
use crate::geometry::{is_peer, are_peers, spec_row, spec_col, spec_box};
use crate::masks::{mask_bit, lemma_mask_or, lemma_mask_single, lemma_set_clear_roundtrip};

verus! {

/// Number of empty cells among the first `n`.
pub open spec fn empty_count_upto(cells: Seq<u8>, n: int) -> nat
    decreases n,
{
    if n <= 0 {
        0
    } else {
        empty_count_upto(cells, n - 1) + if cells[n - 1] == 0 {
            1nat
        } else {
            0nat
        }
    }
}

/// Number of empty cells of a grid.
pub open spec fn empty_count(cells: Seq<u8>) -> nat {
    empty_count_upto(cells, 81)
}

/// Filling an empty cell lowers the number of empty cells by one.
proof fn lemma_empty_count_update(cells: Seq<u8>, i: int, v: u8, n: int)
    requires
        0 <= i < cells.len(),
        cells[i] == 0,
        v != 0,
        n <= cells.len(),
    ensures
        empty_count_upto(cells.update(i, v), n) == empty_count_upto(cells, n) - if i < n {
            1int
        } else {
            0int
        },
    decreases n,
{
    if n > 0 {
        lemma_empty_count_update(cells, i, v, n - 1);
    }
}

/// Whether digit `d` can be placed at cell `i` without clashing with a peer.
fn can_place(cells: &Vec<u8>, i: usize, d: u8) -> (r: bool)
    requires
        cells@.len() == 81,
        i < 81,
    ensures
        r == (forall|j: int| is_peer(i as int, j) ==> cells@[j] != d),
{
    let mut j: usize = 0;
    while j < 81
        invariant
            cells@.len() == 81,
            i < 81,
            j <= 81,
            forall|j0: int| 0 <= j0 < j && is_peer(i as int, j0) ==> cells@[j0] != d,
        decreases 81 - j,
    {
        if are_peers(i, j) && cells[j] == d {
            return false;
        }
        j = j + 1;
    }
    true
}

/// The first empty cell of the grid, scanning in reading order.
fn first_empty(cells: &Vec<u8>) -> (r: Option<usize>)
    requires
        cells@.len() == 81,
    ensures
        (r is None) <==> (forall|i: int| 0 <= i < 81 ==> cells@[i] != 0),
        r matches Some(i) ==> i < 81 && cells@[i as int] == 0,
{
    let mut i: usize = 0;
    while i < 81
        invariant
            cells@.len() == 81,
            i <= 81,
            forall|j: int| 0 <= j < i ==> cells@[j] != 0,
        decreases 81 - i,
    {
        if cells[i] == 0 {
            return Some(i);
        }
        i = i + 1;
    }
    None
}

/// Placing a digit that clashes with no peer keeps the grid conflict-free.
proof fn lemma_valid_place(cells: Seq<u8>, i: int, v: u8)
    requires
        grid_valid(cells),
        cells.len() == 81,
        0 <= i < 81,
        1 <= v <= 9,
        forall|j: int| is_peer(i, j) ==> cells[j] != v,
    ensures
        grid_valid(cells.update(i, v)),
{
    let updated = cells.update(i, v);
    assert forall|x: int, y: int|
        #[trigger] is_peer(x, y) && updated[x] != 0 implies updated[x] != updated[y] by {
        if x == i {
            assert(is_peer(i, y));
            assert(cells[y] != v);
        } else if y == i {
            if updated[x] == v {
                assert(is_peer(i, x));
                assert(cells[x] != v);
            }
        } else {
            assert(updated[x] == cells[x] && updated[y] == cells[y]);
        }
    }
}

/// The first empty cell at or after `start`, scanning in reading order.
fn first_empty_from(cells: &Vec<u8>, start: usize) -> (r: Option<usize>)
    requires
        cells@.len() == 81,
        start <= 81,
    ensures
        (r is None) <==> (forall|i: int| start <= i < 81 ==> cells@[i] != 0),
        r matches Some(i) ==> start <= i < 81 && cells@[i as int] == 0 && (forall|j: int|
            start <= j < i ==> cells@[j] != 0),
{
    let mut i: usize = start;
    while i < 81
        invariant
            cells@.len() == 81,
            start <= i <= 81,
            forall|j: int| start <= j < i ==> cells@[j] != 0,
        decreases 81 - i,
    {
        if cells[i] == 0 {
            return Some(i);
        }
        i = i + 1;
    }
    None
}


/// The used-digit masks reflect the grid: a digit's bit is set in a row's,
/// column's or box's mask exactly when some cell of that line holds the
/// digit.
pub open spec fn used_masks_ok(
    cells: Seq<u8>,
    row_used: Seq<u16>,
    col_used: Seq<u16>,
    box_used: Seq<u16>,
) -> bool {
    &&& (forall|r: int, dd: int|
        0 <= r < 9 && 0 <= dd < 9 ==> (#[trigger] mask_bit(row_used[r], dd) <==> exists|j: int|
            0 <= j < 81 && spec_row(j) == r && cells[j] == dd + 1))
    &&& (forall|c: int, dd: int|
        0 <= c < 9 && 0 <= dd < 9 ==> (#[trigger] mask_bit(col_used[c], dd) <==> exists|j: int|
            0 <= j < 81 && spec_col(j) == c && cells[j] == dd + 1))
    &&& (forall|b: int, dd: int|
        0 <= b < 9 && 0 <= dd < 9 ==> (#[trigger] mask_bit(box_used[b], dd) <==> exists|j: int|
            0 <= j < 81 && spec_box(j) == b && cells[j] == dd + 1))
}

/// A solution of a grid with one more clue is a solution of the grid.
proof fn lemma_solution_drop_clue(sol: Seq<u8>, cells: Seq<u8>, i: int, v: u8)
    requires
        cells.len() == 81,
        0 <= i < 81,
        cells[i] == 0,
        full_solution_of(sol, cells.update(i, v)),
    ensures
        full_solution_of(sol, cells),
{
    assert forall|j: int| 0 <= j < 81 && cells[j] != 0 implies sol[j] == cells[j] by {
        assert(cells.update(i, v)[j] == cells[j]);
    }
}

/// Counts completions of the grid by exhaustive search, stopping as soon as
/// `cap` are found. The `used` masks cache, per row, column and box, the
/// digits already placed there, and `start` skips the cells known to be
/// filled; everything is left as it was.
fn count_from(
    cells: &mut Vec<u8>,
    row_used: &mut Vec<u16>,
    col_used: &mut Vec<u16>,
    box_used: &mut Vec<u16>,
    start: usize,
    cap: usize,
) -> (n: usize)
    requires
        old(cells)@.len() == 81,
        forall|i: int| 0 <= i < 81 ==> old(cells)@[i] <= 9,
        old(row_used)@.len() == 9,
        old(col_used)@.len() == 9,
        old(box_used)@.len() == 9,
        used_masks_ok(old(cells)@, old(row_used)@, old(col_used)@, old(box_used)@),
        start <= 81,
        forall|j: int| 0 <= j < start ==> old(cells)@[j] != 0,
        1 <= cap <= 2,
    ensures
        final(cells)@ == old(cells)@,
        final(row_used)@ == old(row_used)@,
        final(col_used)@ == old(col_used)@,
        final(box_used)@ == old(box_used)@,
        n <= cap,
        (forall|i: int| 0 <= i < 81 ==> old(cells)@[i] != 0) ==> n == 1,
        (exists|sol: Seq<u8>| full_solution_of(sol, old(cells)@)) ==> n >= 1,
        grid_valid(old(cells)@) ==> (n >= 1 ==> exists|sol: Seq<u8>|
            full_solution_of(sol, old(cells)@)),
        (exists|s1: Seq<u8>, s2: Seq<u8>|
            s1 != s2 && full_solution_of(s1, old(cells)@) && full_solution_of(
                s2,
                old(cells)@,
            )) ==> n == cap,
        grid_valid(old(cells)@) ==> (n >= 2 ==> exists|s1: Seq<u8>, s2: Seq<u8>|
            s1 != s2 && full_solution_of(s1, old(cells)@) && full_solution_of(s2, old(cells)@)),
    decreases empty_count(old(cells)@),
{
    let target = first_empty_from(cells, start);
    let idx = match target {
        Option::Some(i) => i,
        Option::None => {
            proof {
                if grid_valid(cells@) {
                    assert(full_solution_of(cells@, cells@));
                }
                assert forall|s1: Seq<u8>, s2: Seq<u8>|
                    full_solution_of(s1, cells@) && full_solution_of(s2, cells@) implies s1
                    == s2 by {
                    assert forall|i: int| 0 <= i < 81 implies s1[i] == s2[i] by {
                        assert(s1[i] == cells@[i] && s2[i] == cells@[i]);
                    }
                    assert(s1 =~= s2);
                }
            }
            return 1;
        },
    };
    let row = idx / 9;
    let col = idx % 9;
    let bx = (idx / 9 / 3) * 3 + (idx % 9) / 3;
    let mut total: usize = 0;
    let mut d: u8 = 1;
    while d <= 9 && total < cap
        invariant
            cells@.len() == 81,
            forall|i: int| 0 <= i < 81 ==> cells@[i] <= 9,
            row_used@.len() == 9,
            col_used@.len() == 9,
            box_used@.len() == 9,
            cells@ == old(cells)@,
            row_used@ == old(row_used)@,
            col_used@ == old(col_used)@,
            box_used@ == old(box_used)@,
            used_masks_ok(cells@, row_used@, col_used@, box_used@),
            idx < 81,
            row == idx / 9,
            col == idx % 9,
            bx == (idx / 9 / 3) * 3 + (idx % 9) / 3,
            forall|j: int| 0 <= j < idx ==> cells@[j] != 0,
            cells@[idx as int] == 0,
            1 <= d <= 10,
            1 <= cap <= 2,
            total <= cap,
            total == 0 ==> (forall|sol: Seq<u8>|
                #[trigger] full_solution_of(sol, cells@) ==> sol[idx as int] >= d),
            grid_valid(cells@) ==> (total >= 1 ==> exists|sol: Seq<u8>|
                full_solution_of(sol, cells@) && sol[idx as int] < d),
            grid_valid(cells@) ==> (total >= 2 ==> exists|s1: Seq<u8>, s2: Seq<u8>|
                s1 != s2 && full_solution_of(s1, cells@) && full_solution_of(s2, cells@)),
            total <= 1 && total < cap ==> (forall|s1: Seq<u8>, s2: Seq<u8>|
                s1 != s2 && #[trigger] full_solution_of(s1, cells@) && #[trigger] full_solution_of(
                    s2,
                    cells@,
                ) ==> !(s1[idx as int] < d && s2[idx as int] < d)),
        decreases 10 - d,
    {
        let bit = 1u16 << ((d - 1) as u16);
        let used = (row_used[row] | col_used[col] | box_used[bx]) & bit;
        if used == 0 {
            let ghost pre = cells@;
            let ghost pre_row = row_used@;
            let ghost pre_col = col_used@;
            let ghost pre_box = box_used@;
            let ghost pre_total = total;
            proof {
                let ra = pre_row[row as int];
                let ca = pre_col[col as int];
                let ba = pre_box[bx as int];
                let jd = (d - 1) as u16;
                assert(((ra >> jd) & 1u16 == 0u16) && ((ca >> jd) & 1u16 == 0u16) && ((ba >> jd)
                    & 1u16 == 0u16)) by (bit_vector)
                    requires
                        ((ra | ca | ba) & (1u16 << jd)) == 0u16,
                        jd < 16,
                ;
                lemma_set_clear_roundtrip(ra, jd);
                lemma_set_clear_roundtrip(ca, jd);
                lemma_set_clear_roundtrip(ba, jd);
                lemma_empty_count_update(pre, idx as int, d, 81);
                lemma_mask_single(jd);
                lemma_mask_or(ra, 1u16 << jd);
                lemma_mask_or(ca, 1u16 << jd);
                lemma_mask_or(ba, 1u16 << jd);
                // No cell of the placed cell's row, column or box holds the
                // digit, so the placement clashes with no peer.
                assert(!mask_bit(ra, d - 1) && !mask_bit(ca, d - 1) && !mask_bit(ba, d - 1));
                assert forall|j: int| is_peer(idx as int, j) implies pre[j] != d by {
                    if pre[j] == d {
                        if spec_row(j) == spec_row(idx as int) {
                            assert(mask_bit(ra, d - 1));
                        } else if spec_col(j) == spec_col(idx as int) {
                            assert(mask_bit(ca, d - 1));
                        } else {
                            assert(spec_box(j) == spec_box(idx as int));
                            assert(mask_bit(ba, d - 1));
                        }
                    }
                }
                if grid_valid(pre) {
                    lemma_valid_place(pre, idx as int, d);
                }
            }
            cells.set(idx, d);
            row_used.set(row, row_used[row] | bit);
            col_used.set(col, col_used[col] | bit);
            box_used.set(bx, box_used[bx] | bit);
            proof {
                // The masks still reflect the grid after the placement.
                assert forall|r: int, dd: int|
                    0 <= r < 9 && 0 <= dd < 9 implies (#[trigger] mask_bit(row_used@[r], dd)
                    <==> exists|j: int|
                    0 <= j < 81 && spec_row(j) == r && cells@[j] == dd + 1) by {
                    if r == spec_row(idx as int) && dd == d - 1 {
                        assert(spec_row(idx as int) == r && cells@[idx as int] == dd + 1);
                    } else if r == spec_row(idx as int) {
                        assert(mask_bit(row_used@[r], dd) == mask_bit(pre_row[r], dd));
                    }
                }
                assert forall|c: int, dd: int|
                    0 <= c < 9 && 0 <= dd < 9 implies (#[trigger] mask_bit(col_used@[c], dd)
                    <==> exists|j: int|
                    0 <= j < 81 && spec_col(j) == c && cells@[j] == dd + 1) by {
                    if c == spec_col(idx as int) && dd == d - 1 {
                        assert(spec_col(idx as int) == c && cells@[idx as int] == dd + 1);
                    } else if c == spec_col(idx as int) {
                        assert(mask_bit(col_used@[c], dd) == mask_bit(pre_col[c], dd));
                    }
                }
                assert forall|b: int, dd: int|
                    0 <= b < 9 && 0 <= dd < 9 implies (#[trigger] mask_bit(box_used@[b], dd)
                    <==> exists|j: int|
                    0 <= j < 81 && spec_box(j) == b && cells@[j] == dd + 1) by {
                    if b == spec_box(idx as int) && dd == d - 1 {
                        assert(spec_box(idx as int) == b && cells@[idx as int] == dd + 1);
                    } else if b == spec_box(idx as int) {
                        assert(mask_bit(box_used@[b], dd) == mask_bit(pre_box[b], dd));
                    }
                }
            }
            let sub = count_from(cells, row_used, col_used, box_used, idx + 1, cap - total);
            total = total + sub;
            row_used.set(row, row_used[row] & !bit);
            col_used.set(col, col_used[col] & !bit);
            box_used.set(bx, box_used[bx] & !bit);
            cells.set(idx, 0);
            proof {
                assert(cells@ =~= pre);
                assert(row_used@ =~= pre_row);
                assert(col_used@ =~= pre_col);
                assert(box_used@ =~= pre_box);
                // Solutions placing `d` here were all counted by the branch.
                if pre_total == 0 && total == 0 {
                    assert forall|sol: Seq<u8>|
                        #[trigger] full_solution_of(sol, cells@) implies sol[idx as int] >= d
                            + 1 by {
                        if sol[idx as int] == d {
                            assert(full_solution_of(sol, pre.update(idx as int, d)));
                        }
                    }
                }
                // A solution found by the branch is a solution here, placing
                // this digit.
                if grid_valid(cells@) && sub >= 1 {
                    let sol = choose|sol: Seq<u8>|
                        full_solution_of(sol, pre.update(idx as int, d));
                    lemma_solution_drop_clue(sol, pre, idx as int, d);
                    assert(full_solution_of(sol, cells@) && sol[idx as int] == d);
                }
                // Two found solutions differ: within the branch by the
                // branch's own pair, across branches at this cell.
                if grid_valid(cells@) && total >= 2 {
                    if sub >= 2 {
                        let (s1, s2) = choose|s1: Seq<u8>, s2: Seq<u8>|
                            s1 != s2 && full_solution_of(s1, pre.update(idx as int, d))
                                && full_solution_of(s2, pre.update(idx as int, d));
                        lemma_solution_drop_clue(s1, pre, idx as int, d);
                        lemma_solution_drop_clue(s2, pre, idx as int, d);
                    } else if pre_total >= 1 && sub >= 1 {
                        let s1 = choose|s1: Seq<u8>|
                            full_solution_of(s1, cells@) && s1[idx as int] < d;
                        let s2 = choose|s2: Seq<u8>|
                            full_solution_of(s2, pre.update(idx as int, d));
                        lemma_solution_drop_clue(s2, pre, idx as int, d);
                        assert(s1[idx as int] != s2[idx as int]);
                    }
                }
                // No solution pair below the next digit remains uncounted.
                if total <= 1 && total < cap {
                    assert forall|s1: Seq<u8>, s2: Seq<u8>|
                        s1 != s2 && #[trigger] full_solution_of(s1, cells@)
                            && #[trigger] full_solution_of(s2, cells@) implies !(s1[idx as int] < d
                        + 1 && s2[idx as int] < d + 1) by {
                        if s1[idx as int] < d + 1 && s2[idx as int] < d + 1 {
                            if s1[idx as int] == d && s2[idx as int] == d {
                                assert(full_solution_of(s1, pre.update(idx as int, d)));
                                assert(full_solution_of(s2, pre.update(idx as int, d)));
                                assert(sub == cap - pre_total);
                            } else if s1[idx as int] == d || s2[idx as int] == d {
                                assert(pre_total >= 1);
                                assert(full_solution_of(s1, pre.update(idx as int, d))
                                    || full_solution_of(s2, pre.update(idx as int, d)));
                                assert(sub >= 1);
                            }
                        }
                    }
                }
            }
        } else {
            proof {
                // The digit already occurs in the row, column or box: no
                // solution can place it here.
                let ra = row_used@[row as int];
                let ca = col_used@[col as int];
                let ba = box_used@[bx as int];
                let jd = (d - 1) as u16;
                assert(((ra >> jd) & 1u16 == 1u16) || ((ca >> jd) & 1u16 == 1u16) || ((ba >> jd)
                    & 1u16 == 1u16)) by (bit_vector)
                    requires
                        ((ra | ca | ba) & (1u16 << jd)) != 0u16,
                        jd < 9,
                ;
                assert(mask_bit(ra, d - 1) || mask_bit(ca, d - 1) || mask_bit(ba, d - 1));
                assert forall|sol: Seq<u8>|
                    #[trigger] full_solution_of(sol, cells@) implies sol[idx as int] != d by {
                    if sol[idx as int] == d {
                        if mask_bit(ra, d - 1) {
                            let j = choose|j: int|
                                0 <= j < 81 && #[trigger] spec_row(j) == spec_row(idx as int)
                                    && cells@[j] == d;
                            assert(sol[j] == d && is_peer(idx as int, j));
                        } else if mask_bit(ca, d - 1) {
                            let j = choose|j: int|
                                0 <= j < 81 && #[trigger] spec_col(j) == spec_col(idx as int)
                                    && cells@[j] == d;
                            assert(sol[j] == d && is_peer(idx as int, j));
                        } else {
                            let j = choose|j: int|
                                0 <= j < 81 && #[trigger] spec_box(j) == spec_box(idx as int)
                                    && cells@[j] == d;
                            assert(sol[j] == d && is_peer(idx as int, j));
                        }
                    }
                }
            }
        }
        d = d + 1;
    }
    proof {
        if total == 0 {
            assert forall|sol: Seq<u8>| !(#[trigger] full_solution_of(sol, cells@)) by {
                if full_solution_of(sol, cells@) {
                    assert(sol[idx as int] >= 10 && sol[idx as int] <= 9);
                }
            }
        }
        if total < cap {
            assert forall|s1: Seq<u8>, s2: Seq<u8>|
                s1 != s2 && #[trigger] full_solution_of(s1, cells@)
                    && #[trigger] full_solution_of(s2, cells@) implies false by {
                assert(s1[idx as int] <= 9 && s2[idx as int] <= 9);
            }
        }
    }
    total
}

/// Counts the solutions of the grid, capped at two: for a conflict-free
/// input, 0 exactly when no full conflict-free grid extends it, 1 exactly
/// when one does and all such grids are equal, and 2 exactly when two
/// distinct ones exist.
pub fn count_solutions(board: &Board) -> (n: usize)
    requires
        board.wf(),
    ensures
        n <= 2,
        (forall|i: int| 0 <= i < 81 ==> board.cells@[i] != 0) ==> n == 1,
        (exists|sol: Seq<u8>| full_solution_of(sol, board.cells@)) ==> n >= 1,
        grid_valid(board.cells@) ==> (n >= 1 ==> exists|sol: Seq<u8>|
            full_solution_of(sol, board.cells@)),
        (exists|s1: Seq<u8>, s2: Seq<u8>|
            s1 != s2 && full_solution_of(s1, board.cells@) && full_solution_of(
                s2,
                board.cells@,
            )) ==> n == 2,
        grid_valid(board.cells@) ==> (n >= 2 ==> exists|s1: Seq<u8>, s2: Seq<u8>|
            s1 != s2 && full_solution_of(s1, board.cells@) && full_solution_of(s2, board.cells@)),
{
    let mut work: Vec<u8> = Vec::new();
    let mut row_used: Vec<u16> = vec![0u16; 9];
    let mut col_used: Vec<u16> = vec![0u16; 9];
    let mut box_used: Vec<u16> = vec![0u16; 9];
    proof {
        crate::masks::lemma_mask_extremes();
    }
    let mut i: usize = 0;
    while i < 81
        invariant
            board.wf(),
            i <= 81,
            work@ =~= board.cells@.take(i as int),
            row_used@.len() == 9,
            col_used@.len() == 9,
            box_used@.len() == 9,
            forall|r: int, dd: int|
                0 <= r < 9 && 0 <= dd < 9 ==> (#[trigger] mask_bit(row_used@[r], dd) <==> exists|
                    j: int,
                |
                    0 <= j < i && spec_row(j) == r && board.cells@[j] == dd + 1),
            forall|c: int, dd: int|
                0 <= c < 9 && 0 <= dd < 9 ==> (#[trigger] mask_bit(col_used@[c], dd) <==> exists|
                    j: int,
                |
                    0 <= j < i && spec_col(j) == c && board.cells@[j] == dd + 1),
            forall|b: int, dd: int|
                0 <= b < 9 && 0 <= dd < 9 ==> (#[trigger] mask_bit(box_used@[b], dd) <==> exists|
                    j: int,
                |
                    0 <= j < i && spec_box(j) == b && board.cells@[j] == dd + 1),
        decreases 81 - i,
    {
        let v = board.cells[i];
        work.push(v);
        if v != 0 {
            let bit = 1u16 << ((v - 1) as u16);
            let row = i / 9;
            let col = i % 9;
            let bx = (i / 9 / 3) * 3 + (i % 9) / 3;
            let ghost pre_row = row_used@;
            let ghost pre_col = col_used@;
            let ghost pre_box = box_used@;
            proof {
                lemma_mask_single((v - 1) as u16);
                lemma_mask_or(pre_row[row as int], 1u16 << ((v - 1) as u16));
                lemma_mask_or(pre_col[col as int], 1u16 << ((v - 1) as u16));
                lemma_mask_or(pre_box[bx as int], 1u16 << ((v - 1) as u16));
            }
            row_used.set(row, row_used[row] | bit);
            col_used.set(col, col_used[col] | bit);
            box_used.set(bx, box_used[bx] | bit);
            proof {
                assert forall|r: int, dd: int|
                    0 <= r < 9 && 0 <= dd < 9 implies (#[trigger] mask_bit(row_used@[r], dd)
                    <==> exists|j: int|
                    0 <= j < i + 1 && spec_row(j) == r && board.cells@[j] == dd + 1) by {
                    if r == spec_row(i as int) && dd == v - 1 {
                        assert(spec_row(i as int) == r && board.cells@[i as int] == dd + 1);
                    } else if r == spec_row(i as int) {
                        assert(mask_bit(row_used@[r], dd) == mask_bit(pre_row[r], dd));
                    }
                }
                assert forall|c: int, dd: int|
                    0 <= c < 9 && 0 <= dd < 9 implies (#[trigger] mask_bit(col_used@[c], dd)
                    <==> exists|j: int|
                    0 <= j < i + 1 && spec_col(j) == c && board.cells@[j] == dd + 1) by {
                    if c == spec_col(i as int) && dd == v - 1 {
                        assert(spec_col(i as int) == c && board.cells@[i as int] == dd + 1);
                    } else if c == spec_col(i as int) {
                        assert(mask_bit(col_used@[c], dd) == mask_bit(pre_col[c], dd));
                    }
                }
                assert forall|b: int, dd: int|
                    0 <= b < 9 && 0 <= dd < 9 implies (#[trigger] mask_bit(box_used@[b], dd)
                    <==> exists|j: int|
                    0 <= j < i + 1 && spec_box(j) == b && board.cells@[j] == dd + 1) by {
                    if b == spec_box(i as int) && dd == v - 1 {
                        assert(spec_box(i as int) == b && board.cells@[i as int] == dd + 1);
                    } else if b == spec_box(i as int) {
                        assert(mask_bit(box_used@[b], dd) == mask_bit(pre_box[b], dd));
                    }
                }
            }
        }
        proof {
            assert(work@ =~= board.cells@.take(i as int + 1));
        }
        i = i + 1;
    }
    proof {
        assert(work@ =~= board.cells@);
        assert(used_masks_ok(work@, row_used@, col_used@, box_used@));
    }
    count_from(&mut work, &mut row_used, &mut col_used, &mut box_used, 0, 2)
}

/// Completes the grid by backtracking, trying digits in the order given;
/// placements never clash with a peer. On success the grid is full and any
/// pre-filled cell keeps its value; on failure the grid is unchanged, and
/// the failure is owed: the search succeeds exactly when some full
/// conflict-free grid extends the input. A conflict-free grid stays
/// conflict-free.
pub fn solve_randomized(board: &mut Board, order: &Vec<u8>) -> (r: bool)
    requires
        old(board).wf(),
        order@.len() == 9,
        forall|k: int| 0 <= k < 9 ==> 1 <= #[trigger] order@[k] <= 9,
        forall|d: u8| 1 <= d <= 9 ==> order@.contains(d),
    ensures
        final(board).wf(),
        r ==> forall|i: int| 0 <= i < 81 ==> final(board).cells@[i] != 0,
        forall|i: int|
            0 <= i < 81 && old(board).cells@[i] != 0 ==> final(board).cells@[i] == old(
                board,
            ).cells@[i],
        !r ==> final(board).cells@ == old(board).cells@,
        grid_valid(old(board).cells@) ==> grid_valid(final(board).cells@),
        (exists|sol: Seq<u8>| full_solution_of(sol, old(board).cells@)) ==> r,
        grid_valid(old(board).cells@) ==> (r <==> (exists|sol: Seq<u8>|
            full_solution_of(sol, old(board).cells@))),
    decreases empty_count(old(board).cells@),
{
    let target = first_empty(&board.cells);
    let idx = match target {
        Option::Some(i) => i,
        Option::None => {
            proof {
                if grid_valid(board.cells@) {
                    assert(full_solution_of(board.cells@, board.cells@));
                }
            }
            return true;
        },
    };
    proof {
        assert forall|sol: Seq<u8>|
            #[trigger] full_solution_of(sol, board.cells@) implies exists|k0: int|
            0 <= k0 < 9 && order@[k0] == sol[idx as int] by {
            assert(1 <= sol[idx as int] <= 9);
            assert(order@.contains(sol[idx as int]));
            let j = choose|j: int| 0 <= j < order@.len() && order@[j] == sol[idx as int];
            assert(0 <= j < 9 && order@[j] == sol[idx as int]);
        }
    }
    let mut k: usize = 0;
    while k < 9
        invariant
            board.wf(),
            board.cells@ == old(board).cells@,
            order@.len() == 9,
            forall|k0: int| 0 <= k0 < 9 ==> 1 <= #[trigger] order@[k0] <= 9,
            forall|d: u8| 1 <= d <= 9 ==> order@.contains(d),
            idx < 81,
            board.cells@[idx as int] == 0,
            k <= 9,
            forall|sol: Seq<u8>|
                #[trigger] full_solution_of(sol, board.cells@) ==> exists|k0: int|
                    k <= k0 < 9 && order@[k0] == sol[idx as int],
        decreases 9 - k,
    {
        let d = order[k];
        let placeable = can_place(&board.cells, idx, d);
        if placeable {
            let ghost pre = board.cells@;
            board.cells.set(idx, d);
            proof {
                lemma_empty_count_update(pre, idx as int, d, 81);
                if grid_valid(pre) {
                    lemma_valid_place(pre, idx as int, d);
                }
            }
            if solve_randomized(board, order) {
                proof {
                    if grid_valid(pre) {
                        assert(full_solution_of(board.cells@, pre));
                    }
                }
                return true;
            }
            board.cells.set(idx, 0);
            proof {
                assert(board.cells@ =~= pre);
            }
        }
        proof {
            assert forall|sol: Seq<u8>|
                #[trigger] full_solution_of(sol, board.cells@) implies exists|k0: int|
                k + 1 <= k0 < 9 && order@[k0] == sol[idx as int] by {
                let k0 = choose|k0: int|
                    k <= k0 < 9 && #[trigger] order@[k0] == sol[idx as int];
                if sol[idx as int] == d {
                    if placeable {
                        assert(full_solution_of(sol, board.cells@.update(idx as int, d)));
                        assert(false);
                    } else {
                        let j = choose|j: int|
                            is_peer(idx as int, j) && #[trigger] board.cells@[j] == d;
                        assert(sol[j] == d);
                        assert(sol[j] != sol[idx as int]);
                        assert(false);
                    }
                } else {
                    assert(order@[k0] != d);
                    assert(k0 != k);
                }
            }
        }
        k = k + 1;
    }
    proof {
        assert forall|sol: Seq<u8>| !(#[trigger] full_solution_of(sol, board.cells@)) by {
            if full_solution_of(sol, board.cells@) {
                let k0 = choose|k0: int|
                    9 <= k0 < 9 && #[trigger] order@[k0] == sol[idx as int];
            }
        }
    }
    false
}

} // verus!

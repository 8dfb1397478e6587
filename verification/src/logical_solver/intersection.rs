//! Intersection finders: pointing subsets and claiming (box-line reduction).
//!
//! A pointing subset is a digit whose candidates within a box all share one
//! row or column: the digit can leave the rest of that line. Claiming is the
//! converse: a digit whose candidates within a line all fall in one box can
//! leave the rest of that box.

use vstd::prelude::*;

use crate::geometry::{unit_cell, unit_cell_at, spec_row, spec_col, spec_box, cell_row, cell_col, cell_box};
use crate::masks::mask_has;
use crate::types::{Elimination, CauseCell, SolvingStep};
use super::{LogicalBoard, step_sound, elimination_valid};
use super::basic::{unit_digit_count, unit_digit_count_upto};

verus! {

/// The cells among the first `n` of unit `u` that still hold digit `d`, in
/// unit order.
pub open spec fn digit_cells_upto(b: LogicalBoard, u: int, d: int, n: int) -> Seq<int>
    decreases n,
{
    if n <= 0 {
        Seq::empty()
    } else {
        digit_cells_upto(b, u, d, n - 1) + if b.has_cand(unit_cell(u, n - 1), d) {
            seq![unit_cell(u, n - 1)]
        } else {
            Seq::empty()
        }
    }
}

/// The cells of unit `u` that still hold digit `d`, in unit order.
pub open spec fn digit_cells(b: LogicalBoard, u: int, d: int) -> Seq<int> {
    digit_cells_upto(b, u, d, 9)
}

/// The cells of `digit_cells` are exactly the unit's cells holding `d`, and
/// there are as many as the unit's digit count.
pub proof fn lemma_digit_cells(b: LogicalBoard, u: int, d: int, n: int)
    requires
        0 <= n <= 9,
    ensures
        digit_cells_upto(b, u, d, n).len() == unit_digit_count_upto(b, u, d, n),
        forall|j: int|
            0 <= j < digit_cells_upto(b, u, d, n).len() ==> b.has_cand(
                #[trigger] digit_cells_upto(b, u, d, n)[j],
                d,
            ),
        forall|k: int|
            0 <= k < n && b.has_cand(#[trigger] unit_cell(u, k), d) ==> digit_cells_upto(
                b,
                u,
                d,
                n,
            ).contains(unit_cell(u, k)),
    decreases n,
{
    if n > 0 {
        lemma_digit_cells(b, u, d, n - 1);
        let s = digit_cells_upto(b, u, d, n);
        let rest = digit_cells_upto(b, u, d, n - 1);
        assert forall|k: int|
            0 <= k < n && b.has_cand(#[trigger] unit_cell(u, k), d) implies s.contains(
            unit_cell(u, k),
        ) by {
            if k < n - 1 {
                let j = choose|j: int| 0 <= j < rest.len() && rest[j] == unit_cell(u, k);
                assert(s[j] == unit_cell(u, k));
            } else {
                assert(s[s.len() - 1] == unit_cell(u, k));
            }
        }
    }
}

/// The eliminations of digit `d` along line `line` (a row when `is_row`,
/// else a column) outside box `bx`, scanning the first `n` line positions.
pub open spec fn pointing_elims_upto(
    b: LogicalBoard,
    d: u8,
    bx: int,
    line: int,
    is_row: bool,
    n: int,
) -> Seq<Elimination>
    decreases n,
{
    if n <= 0 {
        Seq::empty()
    } else {
        pointing_elims_upto(b, d, bx, line, is_row, n - 1) + {
            let idx = if is_row {
                line * 9 + (n - 1)
            } else {
                (n - 1) * 9 + line
            };
            if spec_box(idx) != bx && b.has_cand(idx, d as int) {
                seq![Elimination { index: idx as usize, value: d }]
            } else {
                Seq::empty()
            }
        }
    }
}

/// The eliminations of digit `d` along a line outside box `bx`.
pub open spec fn pointing_elims(b: LogicalBoard, d: u8, bx: int, line: int, is_row: bool) -> Seq<
    Elimination,
> {
    pointing_elims_upto(b, d, bx, line, is_row, 9)
}

/// A pointing subset: within box `bx` digit `d` occurs two or three times,
/// all in line `line` (a row when `is_row`, else a column), and the digit
/// still occurs in that line outside the box.
pub open spec fn pointing_at(b: LogicalBoard, bx: int, d: int, line: int, is_row: bool) -> bool {
    &&& 0 <= bx < 9
    &&& 1 <= d <= 9
    &&& 0 <= line < 9
    &&& 2 <= unit_digit_count(b, 18 + bx, d) <= 3
    &&& (forall|k: int|
        0 <= k < 9 && b.has_cand(#[trigger] unit_cell(18 + bx, k), d) ==> (if is_row {
            spec_row(unit_cell(18 + bx, k))
        } else {
            spec_col(unit_cell(18 + bx, k))
        }) == line)
    &&& pointing_elims(b, d as u8, bx, line, is_row).len() > 0
}

/// The step a pointing subset produces: no placement, the line's
/// eliminations outside the box, and the box's candidate cells as causes.
pub open spec fn pointing_step_at(
    b: LogicalBoard,
    bx: int,
    d: u8,
    line: int,
    is_row: bool,
    s: SolvingStep,
) -> bool {
    &&& s.technique@ == (if unit_digit_count(b, 18 + bx, d as int) == 2 {
        "PointingPair"@
    } else {
        "PointingTriple"@
    })
    &&& s.placements@.len() == 0
    &&& s.eliminations@ == pointing_elims(b, d, bx, line, is_row)
    &&& s.cause@.len() == digit_cells(b, 18 + bx, d as int).len()
    &&& (forall|n: int|
        0 <= n < s.cause@.len() ==> {
            &&& (#[trigger] s.cause@[n]).index == digit_cells(b, 18 + bx, d as int)[n]
            &&& s.cause@[n].candidates@ == seq![d]
        })
}

/// Some pointing subset produces this step, and it is the first match in
/// scan order: boxes ascending, digits ascending, the row alignment tried
/// before the column alignment.
pub open spec fn some_pointing_step(b: LogicalBoard, s: SolvingStep) -> bool {
    exists|bx: int, d: u8, line: int, is_row: bool|
        #![trigger pointing_step_at(b, bx, d, line, is_row, s)]
        {
            &&& pointing_at(b, bx, d as int, line, is_row)
            &&& (forall|bx2: int, e: int, line2: int, rb2: bool|
                bx2 < bx || (bx2 == bx && e < d) || (bx2 == bx && e == d && rb2 && !is_row)
                    ==> !pointing_at(b, bx2, e, line2, rb2))
            &&& pointing_step_at(b, bx, d, line, is_row, s)
        }
}

/// Every pointing elimination is valid.
proof fn lemma_pointing_elims_valid(
    b: LogicalBoard,
    d: u8,
    bx: int,
    line: int,
    is_row: bool,
    n: int,
)
    requires
        b.wf(),
        1 <= d <= 9,
        0 <= line < 9,
        n <= 9,
    ensures
        forall|j: int|
            0 <= j < pointing_elims_upto(b, d, bx, line, is_row, n).len() ==> elimination_valid(
                b,
                #[trigger] pointing_elims_upto(b, d, bx, line, is_row, n)[j],
            ),
    decreases n,
{
    if n > 0 {
        lemma_pointing_elims_valid(b, d, bx, line, is_row, n - 1);
        let s = pointing_elims_upto(b, d, bx, line, is_row, n);
        let rest = pointing_elims_upto(b, d, bx, line, is_row, n - 1);
        assert forall|j: int| 0 <= j < s.len() implies elimination_valid(b, #[trigger] s[j]) by {
            if j < rest.len() {
                assert(s[j] == rest[j]);
            }
        }
    }
}

/// Collects the eliminations of `d` along a line outside box `bx`.
fn collect_pointing_elims(board: &LogicalBoard, num: u8, line: usize, is_row: bool, bx: usize) -> (r:
    Vec<Elimination>)
    requires
        board.wf(),
        1 <= num <= 9,
        line < 9,
        bx < 9,
    ensures
        r@ == pointing_elims(*board, num, bx as int, line as int, is_row),
{
    let mut r: Vec<Elimination> = Vec::new();
    let mut k: usize = 0;
    while k < 9
        invariant
            board.wf(),
            1 <= num <= 9,
            line < 9,
            bx < 9,
            k <= 9,
            r@ == pointing_elims_upto(*board, num, bx as int, line as int, is_row, k as int),
        decreases 9 - k,
    {
        let idx = if is_row {
            line * 9 + k
        } else {
            k * 9 + line
        };
        if cell_box(idx) != bx && board.cells[idx] == 0 && mask_has(board.candidates[idx], num) {
            r.push(Elimination { index: idx, value: num });
        }
        k = k + 1;
    }
    r
}

/// Builds the cause list for an intersection step: one cell per entry of
/// `cells`, each carrying the single digit `num`.
fn build_single_digit_causes(cells: &Vec<usize>, num: u8) -> (r: Vec<CauseCell>)
    ensures
        r@.len() == cells@.len(),
        forall|n: int|
            0 <= n < r@.len() ==> {
                &&& (#[trigger] r@[n]).index == cells@[n]
                &&& r@[n].candidates@ == seq![num]
            },
{
    let mut r: Vec<CauseCell> = Vec::new();
    let mut n: usize = 0;
    while n < cells.len()
        invariant
            n <= cells@.len(),
            r@.len() == n,
            forall|j: int|
                0 <= j < n ==> {
                    &&& (#[trigger] r@[j]).index == cells@[j]
                    &&& r@[j].candidates@ == seq![num]
                },
        decreases cells@.len() - n,
    {
        let mut cc: Vec<u8> = Vec::new();
        cc.push(num);
        assert(cc@ =~= seq![num]);
        r.push(CauseCell { index: cells[n], candidates: cc });
        n = n + 1;
    }
    r
}

/// Searches each box for a digit whose candidates align in one row or
/// column, eliminating the digit from the rest of that line. Boxes are
/// scanned in order, digits ascending, rows before columns.
pub fn find_pointing_subset(board: &LogicalBoard) -> (r: Option<SolvingStep>)
    requires
        board.wf(),
    ensures
        (r is Some) <==> (exists|bx: int, d: int, line: int, is_row: bool|
            pointing_at(*board, bx, d, line, is_row)),
        r matches Some(s) ==> some_pointing_step(*board, s),
        r matches Some(s) ==> step_sound(*board, s),
{
    let mut bx: usize = 0;
    while bx < 9
        invariant
            board.wf(),
            bx <= 9,
            forall|b0: int, d: int, line: int, is_row: bool|
                0 <= b0 < bx ==> !pointing_at(*board, b0, d, line, is_row),
        decreases 9 - bx,
    {
        let mut num: u8 = 1;
        while num <= 9
            invariant
                board.wf(),
                bx < 9,
                1 <= num <= 10,
                forall|b0: int, d: int, line: int, is_row: bool|
                    0 <= b0 < bx ==> !pointing_at(*board, b0, d, line, is_row),
                forall|d: int, line: int, is_row: bool|
                    1 <= d < num ==> !pointing_at(*board, bx as int, d, line, is_row),
            decreases 10 - num,
        {
            let u = 18 + bx;
            let mut cells: Vec<usize> = Vec::new();
            let mut k: usize = 0;
            while k < 9
                invariant
                    board.wf(),
                    bx < 9,
                    u == 18 + bx,
                    1 <= num <= 9,
                    k <= 9,
                    cells@.len() == unit_digit_count_upto(*board, u as int, num as int, k as int),
                    cells@.map_values(|c: usize| c as int) =~= digit_cells_upto(
                        *board,
                        u as int,
                        num as int,
                        k as int,
                    ),
                    forall|j: int| 0 <= j < cells@.len() ==> (#[trigger] cells@[j]) < 81,
                decreases 9 - k,
            {
                let idx = unit_cell_at(u, k);
                if board.cells[idx] == 0 && mask_has(board.candidates[idx], num) {
                    cells.push(idx);
                    proof {
                        assert(cells@.map_values(|c: usize| c as int) =~= digit_cells_upto(
                            *board,
                            u as int,
                            num as int,
                            k as int + 1,
                        ));
                    }
                }
                k = k + 1;
            }
            proof {
                lemma_digit_cells(*board, u as int, num as int, 9);
            }
            if 2 <= cells.len() && cells.len() <= 3 {
                let row0 = cell_row(cells[0]);
                let col0 = cell_col(cells[0]);
                let mut same_row = true;
                let mut same_col = true;
                let mut j: usize = 1;
                while j < cells.len()
                    invariant
                        board.wf(),
                        1 <= j <= cells@.len(),
                        2 <= cells@.len() <= 3,
                        forall|n: int| 0 <= n < cells@.len() ==> (#[trigger] cells@[n]) < 81,
                        row0 == spec_row(cells@[0] as int),
                        col0 == spec_col(cells@[0] as int),
                        same_row == (forall|n: int|
                            0 <= n < j ==> spec_row(#[trigger] cells@[n] as int) == row0),
                        same_col == (forall|n: int|
                            0 <= n < j ==> spec_col(#[trigger] cells@[n] as int) == col0),
                    decreases cells@.len() - j,
                {
                    if cell_row(cells[j]) != row0 {
                        same_row = false;
                    }
                    if cell_col(cells[j]) != col0 {
                        same_col = false;
                    }
                    j = j + 1;
                }
                let ghost dc = digit_cells(*board, u as int, num as int);
                proof {
                    lemma_digit_cells_members(*board, u as int, num as int, 9);
                }
                if same_row {
                    let elims = collect_pointing_elims(board, num, row0, true, bx);
                    if elims.len() > 0 {
                        let cause = build_single_digit_causes(&cells, num);
                        let technique: &str = if cells.len() == 2 {
                            "PointingPair"
                        } else {
                            "PointingTriple"
                        };
                        let s = SolvingStep {
                            technique: technique.to_owned(),
                            placements: Vec::new(),
                            eliminations: elims,
                            cause,
                        };
                        proof {
                            assert forall|k0: int|
                                0 <= k0 < 9 && board.has_cand(
                                    #[trigger] unit_cell(u as int, k0),
                                    num as int,
                                ) implies spec_row(unit_cell(u as int, k0)) == row0 by {
                                assert(dc.contains(unit_cell(u as int, k0)));
                                let n = choose|n: int|
                                    0 <= n < dc.len() && dc[n] == unit_cell(u as int, k0);
                                assert(cells@[n] as int == unit_cell(u as int, k0));
                            }
                            assert(pointing_at(*board, bx as int, num as int, row0 as int, true));
                            assert(pointing_step_at(*board, bx as int, num, row0 as int, true, s));
                            lemma_pointing_elims_valid(
                                *board,
                                num,
                                bx as int,
                                row0 as int,
                                true,
                                9,
                            );
                            assert forall|bx2: int, e: int, line2: int, rb2: bool|
                                bx2 < bx as int || (bx2 == bx as int && e < num as int) || (bx2
                                    == bx as int && e == num as int && rb2
                                    && !true) implies !pointing_at(
                                *board,
                                bx2,
                                e,
                                line2,
                                rb2,
                            ) by {
                                if pointing_at(*board, bx2, e, line2, rb2) {
                                    assert(0 <= bx2 && 1 <= e <= 9);
                                }
                            }
                            assert(some_pointing_step(*board, s));
                        }
                        return Some(s);
                    }
                }
                if same_col {
                    let elims = collect_pointing_elims(board, num, col0, false, bx);
                    if elims.len() > 0 {
                        let cause = build_single_digit_causes(&cells, num);
                        let technique: &str = if cells.len() == 2 {
                            "PointingPair"
                        } else {
                            "PointingTriple"
                        };
                        let s = SolvingStep {
                            technique: technique.to_owned(),
                            placements: Vec::new(),
                            eliminations: elims,
                            cause,
                        };
                        proof {
                            assert forall|k0: int|
                                0 <= k0 < 9 && board.has_cand(
                                    #[trigger] unit_cell(u as int, k0),
                                    num as int,
                                ) implies spec_col(unit_cell(u as int, k0)) == col0 by {
                                assert(dc.contains(unit_cell(u as int, k0)));
                                let n = choose|n: int|
                                    0 <= n < dc.len() && dc[n] == unit_cell(u as int, k0);
                                assert(cells@[n] as int == unit_cell(u as int, k0));
                            }
                            assert(pointing_at(*board, bx as int, num as int, col0 as int, false));
                            assert(pointing_step_at(*board, bx as int, num, col0 as int, false, s));
                            lemma_pointing_elims_valid(
                                *board,
                                num,
                                bx as int,
                                col0 as int,
                                false,
                                9,
                            );
                            assert forall|line2: int|
                                !pointing_at(*board, bx as int, num as int, line2, true) by {
                                if pointing_at(*board, bx as int, num as int, line2, true) {
                                    assert forall|n: int|
                                        0 <= n < cells@.len() implies spec_row(
                                        #[trigger] cells@[n] as int,
                                    ) == line2 by {
                                        assert(cells@[n] as int == dc[n]);
                                        let k = choose|k: int|
                                            0 <= k < 9 && #[trigger] unit_cell(u as int, k)
                                                == dc[n];
                                        assert(board.has_cand(unit_cell(u as int, k), num as int));
                                    }
                                    assert(spec_row(cells@[0] as int) == line2);
                                    assert(same_row);
                                    assert(pointing_elims(
                                        *board,
                                        num,
                                        bx as int,
                                        row0 as int,
                                        true,
                                    ).len() == 0);
                                }
                            }
                            assert forall|bx2: int, e: int, line2: int, rb2: bool|
                                bx2 < bx as int || (bx2 == bx as int && e < num as int) || (bx2
                                    == bx as int && e == num as int && rb2
                                    && !false) implies !pointing_at(
                                *board,
                                bx2,
                                e,
                                line2,
                                rb2,
                            ) by {
                                if pointing_at(*board, bx2, e, line2, rb2) {
                                    assert(0 <= bx2 && 1 <= e <= 9);
                                }
                            }
                            assert(some_pointing_step(*board, s));
                        }
                        return Some(s);
                    }
                }
                proof {
                    assert forall|line: int, is_row: bool|
                        !pointing_at(*board, bx as int, num as int, line, is_row) by {
                        if pointing_at(*board, bx as int, num as int, line, is_row) {
                            assert forall|n: int|
                                0 <= n < cells@.len() implies (if is_row {
                                spec_row(#[trigger] cells@[n] as int)
                            } else {
                                spec_col(cells@[n] as int)
                            }) == line by {
                                assert(cells@[n] as int == dc[n]);
                                let k = choose|k: int|
                                    0 <= k < 9 && #[trigger] unit_cell(u as int, k) == dc[n];
                                assert(board.has_cand(unit_cell(u as int, k), num as int));
                            }
                            if is_row {
                                assert(spec_row(cells@[0] as int) == line);
                                assert(same_row);
                                assert(pointing_elims(
                                    *board,
                                    num,
                                    bx as int,
                                    row0 as int,
                                    true,
                                ).len() == 0);
                            } else {
                                assert(spec_col(cells@[0] as int) == line);
                                assert(same_col);
                                assert(pointing_elims(
                                    *board,
                                    num,
                                    bx as int,
                                    col0 as int,
                                    false,
                                ).len() == 0);
                            }
                        }
                    }
                }
            } else {
                proof {
                    assert forall|line: int, is_row: bool|
                        !pointing_at(*board, bx as int, num as int, line, is_row) by {}
                }
            }
            num = num + 1;
        }
        bx = bx + 1;
    }
    None
}

/// Every cell of `digit_cells` is some cell of the unit.
proof fn lemma_digit_cells_members(b: LogicalBoard, u: int, d: int, n: int)
    requires
        0 <= n <= 9,
    ensures
        forall|j: int|
            0 <= j < digit_cells_upto(b, u, d, n).len() ==> exists|k: int|
                0 <= k < 9 && unit_cell(u, k) == #[trigger] digit_cells_upto(b, u, d, n)[j],
    decreases n,
{
    if n > 0 {
        lemma_digit_cells_members(b, u, d, n - 1);
        let s = digit_cells_upto(b, u, d, n);
        let rest = digit_cells_upto(b, u, d, n - 1);
        assert forall|j: int|
            0 <= j < s.len() implies exists|k: int|
            0 <= k < 9 && unit_cell(u, k) == #[trigger] s[j] by {
            if j < rest.len() {
                assert(s[j] == rest[j]);
            } else {
                assert(unit_cell(u, n - 1) == s[j]);
            }
        }
    }
}


// --- Claiming Candidates (box-line reduction) ---

/// The eliminations of digit `d` inside box `bx` outside line `line` (a row
/// when `is_row`, else a column), scanning the first `n` box positions.
pub open spec fn claiming_elims_upto(
    b: LogicalBoard,
    d: u8,
    bx: int,
    line: int,
    is_row: bool,
    n: int,
) -> Seq<Elimination>
    decreases n,
{
    if n <= 0 {
        Seq::empty()
    } else {
        claiming_elims_upto(b, d, bx, line, is_row, n - 1) + {
            let idx = unit_cell(18 + bx, n - 1);
            if (if is_row {
                spec_row(idx) != line
            } else {
                spec_col(idx) != line
            }) && b.has_cand(idx, d as int) {
                seq![Elimination { index: idx as usize, value: d }]
            } else {
                Seq::empty()
            }
        }
    }
}

/// The eliminations of digit `d` inside box `bx` outside a line.
pub open spec fn claiming_elims(b: LogicalBoard, d: u8, bx: int, line: int, is_row: bool) -> Seq<
    Elimination,
> {
    claiming_elims_upto(b, d, bx, line, is_row, 9)
}

/// The unit index of a line: rows are units 0..9, columns 9..18.
pub open spec fn line_unit(line: int, is_row: bool) -> int {
    if is_row {
        line
    } else {
        9 + line
    }
}

/// Claiming: digit `d` occurs in line `line`, only within box `bx`, and
/// still occurs elsewhere in that box.
pub open spec fn claiming_at(b: LogicalBoard, line: int, is_row: bool, d: int, bx: int) -> bool {
    &&& 0 <= line < 9
    &&& 1 <= d <= 9
    &&& 0 <= bx < 9
    &&& unit_digit_count(b, line_unit(line, is_row), d) >= 1
    &&& (forall|k: int|
        0 <= k < 9 && b.has_cand(#[trigger] unit_cell(line_unit(line, is_row), k), d) ==> spec_box(
            unit_cell(line_unit(line, is_row), k),
        ) == bx)
    &&& claiming_elims(b, d as u8, bx, line, is_row).len() > 0
}

/// The step claiming produces: no placement, the box's eliminations outside
/// the line, and the line's candidate cells as causes.
pub open spec fn claiming_step_at(
    b: LogicalBoard,
    line: int,
    is_row: bool,
    d: u8,
    bx: int,
    s: SolvingStep,
) -> bool {
    &&& s.technique@ == "ClaimingCandidate"@
    &&& s.placements@.len() == 0
    &&& s.eliminations@ == claiming_elims(b, d, bx, line, is_row)
    &&& s.cause@.len() == digit_cells(b, line_unit(line, is_row), d as int).len()
    &&& (forall|n: int|
        0 <= n < s.cause@.len() ==> {
            &&& (#[trigger] s.cause@[n]).index == digit_cells(b, line_unit(line, is_row), d as int)[n]
            &&& s.cause@[n].candidates@ == seq![d]
        })
}

/// Line `line`'s first claiming in digit order produced this step.
pub open spec fn first_claiming_in_line(b: LogicalBoard, line: int, is_row: bool, s: SolvingStep) -> bool {
    exists|d: u8, bx: int|
        #![trigger claiming_step_at(b, line, is_row, d, bx, s)]
        {
            &&& claiming_at(b, line, is_row, d as int, bx)
            &&& (forall|e: int, bx2: int| e < d ==> !claiming_at(b, line, is_row, e, bx2))
            &&& claiming_step_at(b, line, is_row, d, bx, s)
        }
}

/// Some claiming produces this step, and it is the first match in scan
/// order: all rows before all columns, lines ascending, digits ascending.
pub open spec fn some_claiming_step(b: LogicalBoard, s: SolvingStep) -> bool {
    exists|line: int, is_row: bool, d: u8, bx: int|
        #![trigger claiming_step_at(b, line, is_row, d, bx, s)]
        {
            &&& claiming_at(b, line, is_row, d as int, bx)
            &&& (forall|l2: int, rb2: bool, e: int, bx2: int|
                (rb2 && !is_row) || (rb2 == is_row && l2 < line) || (rb2 == is_row && l2 == line
                    && e < d) ==> !claiming_at(b, l2, rb2, e, bx2))
            &&& claiming_step_at(b, line, is_row, d, bx, s)
        }
}

/// Every claiming elimination is valid.
proof fn lemma_claiming_elims_valid(
    b: LogicalBoard,
    d: u8,
    bx: int,
    line: int,
    is_row: bool,
    n: int,
)
    requires
        b.wf(),
        1 <= d <= 9,
        0 <= bx < 9,
        n <= 9,
    ensures
        forall|j: int|
            0 <= j < claiming_elims_upto(b, d, bx, line, is_row, n).len() ==> elimination_valid(
                b,
                #[trigger] claiming_elims_upto(b, d, bx, line, is_row, n)[j],
            ),
    decreases n,
{
    if n > 0 {
        lemma_claiming_elims_valid(b, d, bx, line, is_row, n - 1);
        let s = claiming_elims_upto(b, d, bx, line, is_row, n);
        let rest = claiming_elims_upto(b, d, bx, line, is_row, n - 1);
        assert forall|j: int| 0 <= j < s.len() implies elimination_valid(b, #[trigger] s[j]) by {
            if j < rest.len() {
                assert(s[j] == rest[j]);
            } else {
                crate::geometry::lemma_unit_cell_range(18 + bx, n - 1);
            }
        }
    }
}

/// Collects the eliminations of `num` inside box `bx` outside the line.
fn collect_claiming_elims(board: &LogicalBoard, bx: usize, line: usize, is_row: bool, num: u8) -> (r:
    Vec<Elimination>)
    requires
        board.wf(),
        1 <= num <= 9,
        line < 9,
        bx < 9,
    ensures
        r@ == claiming_elims(*board, num, bx as int, line as int, is_row),
{
    let mut r: Vec<Elimination> = Vec::new();
    let mut k: usize = 0;
    while k < 9
        invariant
            board.wf(),
            1 <= num <= 9,
            line < 9,
            bx < 9,
            k <= 9,
            r@ == claiming_elims_upto(*board, num, bx as int, line as int, is_row, k as int),
        decreases 9 - k,
    {
        let idx = unit_cell_at(18 + bx, k);
        let line_match = if is_row {
            cell_row(idx) == line
        } else {
            cell_col(idx) == line
        };
        if !line_match && board.cells[idx] == 0 && mask_has(board.candidates[idx], num) {
            r.push(Elimination { index: idx, value: num });
        }
        k = k + 1;
    }
    r
}

/// Searches one line (row or column) for a digit confined to a single box,
/// trying digits in ascending order.
fn find_claiming_in_unit(board: &LogicalBoard, line: usize, is_row: bool) -> (r: Option<
    SolvingStep,
>)
    requires
        board.wf(),
        line < 9,
    ensures
        (r is Some) <==> (exists|d: int, bx: int| claiming_at(*board, line as int, is_row, d, bx)),
        r matches Some(s) ==> first_claiming_in_line(*board, line as int, is_row, s),
        r matches Some(s) ==> step_sound(*board, s),
{
    let u: usize = if is_row {
        line
    } else {
        9 + line
    };
    let mut num: u8 = 1;
    while num <= 9
        invariant
            board.wf(),
            line < 9,
            u == line_unit(line as int, is_row),
            u < 18,
            1 <= num <= 10,
            forall|d: int, bx: int|
                1 <= d < num ==> !claiming_at(*board, line as int, is_row, d, bx),
        decreases 10 - num,
    {
        let mut cells: Vec<usize> = Vec::new();
        let mut k: usize = 0;
        while k < 9
            invariant
                board.wf(),
                u < 18,
                1 <= num <= 9,
                k <= 9,
                cells@.len() == unit_digit_count_upto(*board, u as int, num as int, k as int),
                cells@.map_values(|c: usize| c as int) =~= digit_cells_upto(
                    *board,
                    u as int,
                    num as int,
                    k as int,
                ),
                forall|j: int| 0 <= j < cells@.len() ==> (#[trigger] cells@[j]) < 81,
            decreases 9 - k,
        {
            let idx = unit_cell_at(u, k);
            if board.cells[idx] == 0 && mask_has(board.candidates[idx], num) {
                cells.push(idx);
                proof {
                    assert(cells@.map_values(|c: usize| c as int) =~= digit_cells_upto(
                        *board,
                        u as int,
                        num as int,
                        k as int + 1,
                    ));
                }
            }
            k = k + 1;
        }
        let ghost dc = digit_cells(*board, u as int, num as int);
        proof {
            lemma_digit_cells(*board, u as int, num as int, 9);
            lemma_digit_cells_members(*board, u as int, num as int, 9);
        }
        if cells.len() > 0 {
            let bx0 = cell_box(cells[0]);
            let mut all_same = true;
            let mut j: usize = 1;
            while j < cells.len()
                invariant
                    board.wf(),
                    1 <= j <= cells@.len(),
                    forall|n: int| 0 <= n < cells@.len() ==> (#[trigger] cells@[n]) < 81,
                    bx0 == spec_box(cells@[0] as int),
                    bx0 < 9,
                    all_same == (forall|n: int|
                        0 <= n < j ==> spec_box(#[trigger] cells@[n] as int) == bx0),
                decreases cells@.len() - j,
            {
                if cell_box(cells[j]) != bx0 {
                    all_same = false;
                }
                j = j + 1;
            }
            if all_same {
                let elims = collect_claiming_elims(board, bx0, line, is_row, num);
                if elims.len() > 0 {
                    let cause = build_single_digit_causes(&cells, num);
                    let s = SolvingStep {
                        technique: "ClaimingCandidate".to_owned(),
                        placements: Vec::new(),
                        eliminations: elims,
                        cause,
                    };
                    proof {
                        assert forall|k0: int|
                            0 <= k0 < 9 && board.has_cand(
                                #[trigger] unit_cell(u as int, k0),
                                num as int,
                            ) implies spec_box(unit_cell(u as int, k0)) == bx0 by {
                            assert(dc.contains(unit_cell(u as int, k0)));
                            let n = choose|n: int|
                                0 <= n < dc.len() && dc[n] == unit_cell(u as int, k0);
                            assert(cells@[n] as int == unit_cell(u as int, k0));
                        }
                        assert(claiming_at(
                            *board,
                            line as int,
                            is_row,
                            num as int,
                            bx0 as int,
                        ));
                        assert(claiming_step_at(*board, line as int, is_row, num, bx0 as int, s));
                        lemma_claiming_elims_valid(
                            *board,
                            num,
                            bx0 as int,
                            line as int,
                            is_row,
                            9,
                        );
                        assert forall|e: int, bx2: int|
                            e < num as int implies !claiming_at(
                            *board,
                            line as int,
                            is_row,
                            e,
                            bx2,
                        ) by {
                            if claiming_at(*board, line as int, is_row, e, bx2) {
                                assert(1 <= e <= 9);
                            }
                        }
                        assert(first_claiming_in_line(*board, line as int, is_row, s));
                    }
                    return Some(s);
                }
            }
            proof {
                assert forall|bx: int|
                    !claiming_at(*board, line as int, is_row, num as int, bx) by {
                    if claiming_at(*board, line as int, is_row, num as int, bx) {
                        assert forall|n: int|
                            0 <= n < cells@.len() implies spec_box(
                            #[trigger] cells@[n] as int,
                        ) == bx by {
                            assert(cells@[n] as int == dc[n]);
                            let k = choose|k: int|
                                0 <= k < 9 && #[trigger] unit_cell(u as int, k) == dc[n];
                            assert(board.has_cand(unit_cell(u as int, k), num as int));
                        }
                        assert(bx == bx0);
                        assert(all_same);
                        assert(claiming_elims(
                            *board,
                            num,
                            bx0 as int,
                            line as int,
                            is_row,
                        ).len() == 0);
                    }
                }
            }
        } else {
            proof {
                assert forall|bx: int|
                    !claiming_at(*board, line as int, is_row, num as int, bx) by {}
            }
        }
        num = num + 1;
    }
    None
}

/// Searches rows then columns for a claiming (box-line reduction) pattern.
pub fn find_claiming_candidates(board: &LogicalBoard) -> (r: Option<SolvingStep>)
    requires
        board.wf(),
    ensures
        (r is Some) <==> (exists|line: int, is_row: bool, d: int, bx: int|
            claiming_at(*board, line, is_row, d, bx)),
        r matches Some(s) ==> some_claiming_step(*board, s),
        r matches Some(s) ==> step_sound(*board, s),
{
    let mut line: usize = 0;
    while line < 9
        invariant
            board.wf(),
            line <= 9,
            forall|l0: int, d: int, bx: int|
                0 <= l0 < line ==> !claiming_at(*board, l0, true, d, bx),
        decreases 9 - line,
    {
        if let Some(s) = find_claiming_in_unit(board, line, true) {
            proof {
                let (d, bx) = choose|d: u8, bx: int|
                    #![trigger claiming_step_at(*board, line as int, true, d, bx, s)]
                    {
                        &&& claiming_at(*board, line as int, true, d as int, bx)
                        &&& (forall|e: int, bx2: int|
                            e < d ==> !claiming_at(*board, line as int, true, e, bx2))
                        &&& claiming_step_at(*board, line as int, true, d, bx, s)
                    };
                assert forall|l2: int, rb2: bool, e: int, bx2: int|
                    (rb2 && !true) || (rb2 == true && l2 < line as int) || (rb2 == true && l2
                        == line as int && e < d) implies !claiming_at(*board, l2, rb2, e, bx2) by {
                    if claiming_at(*board, l2, rb2, e, bx2) {
                        assert(0 <= l2 < 9);
                    }
                }
                assert(some_claiming_step(*board, s));
            }
            return Some(s);
        }
        line = line + 1;
    }
    let mut line: usize = 0;
    while line < 9
        invariant
            board.wf(),
            line <= 9,
            forall|l0: int, d: int, bx: int| !claiming_at(*board, l0, true, d, bx),
            forall|l0: int, d: int, bx: int|
                0 <= l0 < line ==> !claiming_at(*board, l0, false, d, bx),
        decreases 9 - line,
    {
        if let Some(s) = find_claiming_in_unit(board, line, false) {
            proof {
                let (d, bx) = choose|d: u8, bx: int|
                    #![trigger claiming_step_at(*board, line as int, false, d, bx, s)]
                    {
                        &&& claiming_at(*board, line as int, false, d as int, bx)
                        &&& (forall|e: int, bx2: int|
                            e < d ==> !claiming_at(*board, line as int, false, e, bx2))
                        &&& claiming_step_at(*board, line as int, false, d, bx, s)
                    };
                assert forall|l2: int, rb2: bool, e: int, bx2: int|
                    (rb2 && !false) || (rb2 == false && l2 < line as int) || (rb2 == false && l2
                        == line as int && e < d) implies !claiming_at(*board, l2, rb2, e, bx2) by {
                    if claiming_at(*board, l2, rb2, e, bx2) {
                        assert(0 <= l2 < 9);
                    }
                }
                assert(some_claiming_step(*board, s));
            }
            return Some(s);
        }
        line = line + 1;
    }
    None
}

} // verus!

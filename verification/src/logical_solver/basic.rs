//! Basic technique finders: naked single and hidden single.

use vstd::prelude::*;

use crate::geometry::{are_peers, unit_cell, unit_cell_at};
use crate::masks::{has_digit, count_bits, mask_has, mask_count, mask_lowest_digit};
use crate::types::{Placement, Elimination, SolvingStep};
use super::{
    LogicalBoard,
    step_sound,
    peer_elims,
    peer_elims_upto,
    cell_elims,
    cell_elims_upto,
    lemma_peer_elims_valid,
    lemma_cell_elims_valid,
};
use crate::masks::lemma_mask_clear;

verus! {

/// An empty cell whose candidate set has exactly one digit left.
pub open spec fn is_naked_single(b: LogicalBoard, i: int) -> bool {
    &&& 0 <= i < 81
    &&& b.cells@[i] == 0
    &&& count_bits(b.candidates@[i]) == 1
}

/// The step a naked single at cell `i` produces: one placement of the only
/// remaining digit, plus the eliminations of that digit among the peers.
pub open spec fn naked_single_step_at(b: LogicalBoard, i: int, s: SolvingStep) -> bool {
    &&& s.technique@ == "NakedSingle"@
    &&& s.placements@.len() == 1
    &&& s.placements@[0].index == i
    &&& 1 <= s.placements@[0].value <= 9
    &&& has_digit(b.candidates@[i], s.placements@[0].value as int)
    &&& s.eliminations@ == peer_elims(b, i, s.placements@[0].value)
    &&& s.cause@.len() == 0
}

/// Some naked single produces this step.
pub open spec fn some_naked_single_step(b: LogicalBoard, s: SolvingStep) -> bool {
    exists|i: int|
        #![trigger naked_single_step_at(b, i, s)]
        {
            &&& is_naked_single(b, i)
            &&& naked_single_step_at(b, i, s)
        }
}

/// Searches for a cell with exactly one candidate, scanning cells in
/// ascending order; the first such cell wins.
pub fn find_naked_single(board: &LogicalBoard) -> (r: Option<SolvingStep>)
    requires
        board.wf(),
    ensures
        (r is Some) <==> (exists|i: int| is_naked_single(*board, i)),
        r matches Some(s) ==> exists|i: int|
            {
                &&& #[trigger] is_naked_single(*board, i)
                &&& (forall|j: int| 0 <= j < i ==> !is_naked_single(*board, j))
                &&& naked_single_step_at(*board, i, s)
            },
        r matches Some(s) ==> some_naked_single_step(*board, s),
        r matches Some(s) ==> step_sound(*board, s),
{
    let mut i: usize = 0;
    while i < 81
        invariant
            board.wf(),
            i <= 81,
            forall|j: int| 0 <= j < i ==> !is_naked_single(*board, j),
        decreases 81 - i,
    {
        if board.cells[i] == 0 && mask_count(board.candidates[i]) == 1 {
            let value = mask_lowest_digit(board.candidates[i]);
            let eliminations = collect_peer_eliminations(board, i, value);
            let mut placements: Vec<Placement> = Vec::new();
            placements.push(Placement { index: i, value });
            let s = SolvingStep {
                technique: "NakedSingle".to_owned(),
                placements,
                eliminations,
                cause: Vec::new(),
            };
            proof {
                assert(is_naked_single(*board, i as int));
                assert(naked_single_step_at(*board, i as int, s));
                assert(some_naked_single_step(*board, s));
                lemma_peer_elims_valid(*board, i as int, value, 81);
            }
            return Some(s);
        }
        i = i + 1;
    }
    None
}

/// Number of cells among the first `n` of unit `u` that still hold digit `d`
/// as a candidate.
pub open spec fn unit_digit_count_upto(b: LogicalBoard, u: int, d: int, n: int) -> nat
    decreases n,
{
    if n <= 0 {
        0
    } else {
        unit_digit_count_upto(b, u, d, n - 1) + if b.has_cand(unit_cell(u, n - 1), d) {
            1nat
        } else {
            0nat
        }
    }
}

/// Number of cells of unit `u` that still hold digit `d` as a candidate.
pub open spec fn unit_digit_count(b: LogicalBoard, u: int, d: int) -> nat {
    unit_digit_count_upto(b, u, d, 9)
}

/// Digit `d` fits in exactly one cell of unit `u`.
pub open spec fn is_hidden_single(b: LogicalBoard, u: int, d: int) -> bool {
    &&& 0 <= u < 27
    &&& 1 <= d <= 9
    &&& unit_digit_count(b, u, d) == 1
}

/// The step a hidden single of digit `d` at cell `target` produces: one
/// placement, the eliminations of `d` among the peers, then the eliminations
/// of the target cell's other candidates.
pub open spec fn hidden_single_step_at(b: LogicalBoard, target: int, d: u8, s: SolvingStep) -> bool {
    &&& s.technique@ == "HiddenSingle"@
    &&& s.placements@.len() == 1
    &&& s.placements@[0].index == target
    &&& s.placements@[0].value == d
    &&& s.eliminations@ == peer_elims(b, target, d) + cell_elims(
        target,
        b.candidates@[target] & !(1u16 << ((d - 1) as u16)),
    )
    &&& s.cause@.len() == 0
}

/// A hidden single of digit `d` at position `k` of unit `u` produced this
/// step: the digit fits only in that cell of the unit, and the step places
/// it there with its eliminations. With the unit's count at one, the cell
/// is uniquely determined by `u` and `d`.
pub open spec fn hidden_single_witness(b: LogicalBoard, u: int, d: u8, k: int, s: SolvingStep) -> bool {
    &&& is_hidden_single(b, u, d as int)
    &&& 0 <= k < 9
    &&& b.has_cand(unit_cell(u, k), d as int)
    &&& hidden_single_step_at(b, unit_cell(u, k), d, s)
}

/// Unit `u`'s first hidden single in digit order produced this step.
pub open spec fn first_hidden_single_in_unit(b: LogicalBoard, u: int, s: SolvingStep) -> bool {
    exists|d: u8, k: int|
        #![trigger hidden_single_witness(b, u, d, k, s)]
        {
            &&& hidden_single_witness(b, u, d, k, s)
            &&& (forall|d2: int| d2 < d ==> !is_hidden_single(b, u, d2))
        }
}

/// Some hidden single produces this step, and it is the first one in scan
/// order: units ascending, digits ascending within a unit.
pub open spec fn some_hidden_single_step(b: LogicalBoard, s: SolvingStep) -> bool {
    exists|u: int, d: u8, k: int|
        #![trigger hidden_single_witness(b, u, d, k, s)]
        {
            &&& hidden_single_witness(b, u, d, k, s)
            &&& (forall|u2: int, d2: int|
                u2 < u || (u2 == u && d2 < d) ==> !is_hidden_single(b, u2, d2))
        }
}

/// The count up to `n` cells never exceeds the count of the whole unit.
proof fn lemma_unit_count_mono(b: LogicalBoard, u: int, d: int, n1: int, n2: int)
    requires
        n1 <= n2,
    ensures
        unit_digit_count_upto(b, u, d, n1) <= unit_digit_count_upto(b, u, d, n2),
    decreases n2 - n1,
{
    if n1 < n2 {
        lemma_unit_count_mono(b, u, d, n1, n2 - 1);
    }
}

/// A unit whose first `n` cells nowhere hold `d` has count 0 up to `n`.
proof fn lemma_unit_count_none(b: LogicalBoard, u: int, d: int, n: int)
    requires
        forall|k: int| 0 <= k < n ==> !b.has_cand(#[trigger] unit_cell(u, k), d),
    ensures
        unit_digit_count_upto(b, u, d, n) == 0,
    decreases n,
{
    if n > 0 {
        lemma_unit_count_none(b, u, d, n - 1);
    }
}

/// A cell of the unit holding `d` makes the count up to any later bound
/// positive.
proof fn lemma_unit_count_some(b: LogicalBoard, u: int, d: int, k: int, n: int)
    requires
        0 <= k < n,
        b.has_cand(unit_cell(u, k), d),
    ensures
        unit_digit_count_upto(b, u, d, n) >= 1,
    decreases n,
{
    if k < n - 1 {
        lemma_unit_count_some(b, u, d, k, n - 1);
    }
}

/// Two distinct unit cells holding `d` make the whole count at least two.
proof fn lemma_unit_count_two(b: LogicalBoard, u: int, d: int, k1: int, k2: int, n: int)
    requires
        0 <= k1 < k2 < n,
        b.has_cand(unit_cell(u, k1), d),
        b.has_cand(unit_cell(u, k2), d),
    ensures
        unit_digit_count_upto(b, u, d, n) >= 2,
    decreases n,
{
    if k2 == n - 1 {
        lemma_unit_count_some(b, u, d, k1, n - 1);
    } else {
        lemma_unit_count_two(b, u, d, k1, k2, n - 1);
    }
}

/// Finds the single cell of unit `u` where `num` is a candidate, or reports
/// none when `num` fits nowhere or in more than one cell.
fn find_unique_position_in_group(board: &LogicalBoard, u: usize, num: u8) -> (r: Option<usize>)
    requires
        board.wf(),
        u < 27,
        1 <= num <= 9,
    ensures
        (r is Some) <==> unit_digit_count(*board, u as int, num as int) == 1,
        r matches Some(target) ==> {
            &&& target < 81
            &&& board.has_cand(target as int, num as int)
            &&& exists|k: int| 0 <= k < 9 && #[trigger] unit_cell(u as int, k) == target
        },
{
    let mut count: usize = 0;
    let mut target: usize = 0;
    let mut k: usize = 0;
    while k < 9
        invariant
            board.wf(),
            u < 27,
            1 <= num <= 9,
            k <= 9,
            count == unit_digit_count_upto(*board, u as int, num as int, k as int),
            count <= 1,
            count == 1 ==> {
                &&& target < 81
                &&& board.has_cand(target as int, num as int)
                &&& exists|k0: int| 0 <= k0 < 9 && #[trigger] unit_cell(u as int, k0) == target
            },
        decreases 9 - k,
    {
        let idx = unit_cell_at(u, k);
        if board.cells[idx] == 0 && mask_has(board.candidates[idx], num) {
            if count == 1 {
                proof {
                    lemma_unit_count_mono(*board, u as int, num as int, k as int + 1, 9);
                }
                return None;
            }
            count = count + 1;
            target = idx;
        }
        k = k + 1;
    }
    if count == 1 {
        Some(target)
    } else {
        None
    }
}

/// Builds the hidden-single step for digit `num` placed at `target`.
fn build_hidden_single_step(board: &LogicalBoard, target: usize, num: u8) -> (s: SolvingStep)
    requires
        board.wf(),
        target < 81,
        board.has_cand(target as int, num as int),
    ensures
        hidden_single_step_at(*board, target as int, num, s),
        step_sound(*board, s),
{
    let mut eliminations = collect_peer_eliminations(board, target, num);
    let other_cands = board.candidates[target] & !(1u16 << ((num - 1) as u16));
    proof {
        lemma_mask_clear(board.candidates@[target as int], (num - 1) as u16);
        lemma_peer_elims_valid(*board, target as int, num, 81);
        lemma_cell_elims_valid(*board, target as int, other_cands, 10);
    }
    let ghost peer_part = eliminations@;
    let mut d: u8 = 1;
    while d <= 9
        invariant
            1 <= d <= 10,
            eliminations@ == peer_part + cell_elims_upto(target as int, other_cands, d as int),
        decreases 10 - d,
    {
        if mask_has(other_cands, d) {
            eliminations.push(Elimination { index: target, value: d });
        }
        d = d + 1;
    }
    let mut placements: Vec<Placement> = Vec::new();
    placements.push(Placement { index: target, value: num });
    let s = SolvingStep {
        technique: "HiddenSingle".to_owned(),
        placements,
        eliminations,
        cause: Vec::new(),
    };
    s
}

/// Searches one unit for a digit that fits in exactly one of its cells,
/// trying digits in ascending order.
fn find_hidden_single_in_group(board: &LogicalBoard, u: usize) -> (r: Option<SolvingStep>)
    requires
        board.wf(),
        u < 27,
    ensures
        (r is Some) <==> (exists|d: int| is_hidden_single(*board, u as int, d)),
        r matches Some(s) ==> first_hidden_single_in_unit(*board, u as int, s),
        r matches Some(s) ==> step_sound(*board, s),
{
    let mut num: u8 = 1;
    while num <= 9
        invariant
            board.wf(),
            u < 27,
            1 <= num <= 10,
            forall|d: int| 1 <= d < num ==> !is_hidden_single(*board, u as int, d),
        decreases 10 - num,
    {
        if let Some(target) = find_unique_position_in_group(board, u, num) {
            let s = build_hidden_single_step(board, target, num);
            proof {
                assert(is_hidden_single(*board, u as int, num as int));
                assert(hidden_single_step_at(*board, target as int, num, s));
                let k = choose|k: int|
                    0 <= k < 9 && #[trigger] unit_cell(u as int, k) == target;
                assert(hidden_single_witness(*board, u as int, num, k, s));
                assert forall|d2: int| d2 < num implies !is_hidden_single(*board, u as int, d2) by {
                    if 1 <= d2 {
                        assert(!is_hidden_single(*board, u as int, d2));
                    }
                }
                assert(first_hidden_single_in_unit(*board, u as int, s));
            }
            return Some(s);
        }
        num = num + 1;
    }
    proof {
        assert forall|d: int| !is_hidden_single(*board, u as int, d) by {
            if 1 <= d <= 9 {
                assert(!is_hidden_single(*board, u as int, d));
            }
        }
    }
    None
}

/// Searches for a candidate that appears only once in a unit, scanning the
/// 27 units in order (rows, then columns, then boxes).
pub fn find_hidden_single(board: &LogicalBoard) -> (r: Option<SolvingStep>)
    requires
        board.wf(),
    ensures
        (r is Some) <==> (exists|u: int, d: int| is_hidden_single(*board, u, d)),
        r matches Some(s) ==> some_hidden_single_step(*board, s),
        r matches Some(s) ==> step_sound(*board, s),
{
    let mut u: usize = 0;
    while u < 27
        invariant
            board.wf(),
            u <= 27,
            forall|u0: int, d: int| 0 <= u0 < u ==> !is_hidden_single(*board, u0, d),
        decreases 27 - u,
    {
        if let Some(s) = find_hidden_single_in_group(board, u) {
            proof {
                let (d, k) = choose|d: u8, k: int|
                    #![trigger hidden_single_witness(*board, u as int, d, k, s)]
                    {
                        &&& hidden_single_witness(*board, u as int, d, k, s)
                        &&& (forall|d2: int| d2 < d ==> !is_hidden_single(*board, u as int, d2))
                    };
                assert forall|u2: int, d2: int|
                    u2 < u as int || (u2 == u as int && d2 < d) implies !is_hidden_single(
                    *board,
                    u2,
                    d2,
                ) by {
                    if 0 <= u2 < u as int {
                        assert(!is_hidden_single(*board, u2, d2));
                    }
                }
                assert(some_hidden_single_step(*board, s));
            }
            return Some(s);
        }
        u = u + 1;
    }
    None
}

/// Collects the eliminations of `value` among the peers of `index` that
/// still hold it as a candidate, in ascending cell order.
pub(crate) fn collect_peer_eliminations(board: &LogicalBoard, index: usize, value: u8) -> (r: Vec<
    Elimination,
>)
    requires
        board.wf(),
        index < 81,
        1 <= value <= 9,
    ensures
        r@ == peer_elims(*board, index as int, value),
{
    let mut r: Vec<Elimination> = Vec::new();
    let mut j: usize = 0;
    while j < 81
        invariant
            board.wf(),
            index < 81,
            1 <= value <= 9,
            j <= 81,
            r@ == peer_elims_upto(*board, index as int, value, j as int),
        decreases 81 - j,
    {
        if are_peers(index, j) && board.cells[j] == 0 && mask_has(board.candidates[j], value) {
            r.push(Elimination { index: j, value });
        }
        j = j + 1;
    }
    r
}

} // verus!

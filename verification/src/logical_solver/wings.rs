//! Wing finders: XY-Wing, XYZ-Wing and W-Wing.
//!
//! Wings chain two or three cells with few candidates: whichever way the
//! pivot resolves, some digit is forced out of every cell that sees all the
//! chain's loose ends.

use vstd::prelude::*;

use crate::geometry::{is_peer, are_peers, unit_cell_at};
use crate::masks::{
    has_digit,
    mask_bit,
    count_bits,
    low_pos,
    digits_of,
    mask_has,
    mask_count,
    mask_low_pos,
    mask_to_vec,
    lemma_low_pos,
    lemma_mask_and,
    lemma_mask_clear,
    lemma_mask_single,
    lemma_count_split,
    lemma_nonzero_has_bit,
    lemma_mask_or,
};
use crate::types::{Elimination, CauseCell, SolvingStep};
use super::{
    LogicalBoard,
    step_sound,
    elimination_valid,
    common_peer_elims,
    lemma_common_peer_elims_valid,
    get_common_peer_eliminations,
};
use super::basic::{unit_digit_count, unit_digit_count_upto};
use super::intersection::{digit_cells, digit_cells_upto};
use super::single_digit::bit_pos;

verus! {

/// The digit of the two-digit mask `m` other than `d`.
pub open spec fn other_digit(m: u16, d: int) -> int {
    low_pos(m & !(1u16 << ((d - 1) as u16))) + 1
}

/// The non-shared digit of the first pincer of an XY-Wing whose pivot mask
/// is `mp`: the pincer shares exactly one pivot digit, and `c` is its other
/// digit.
pub open spec fn xy_c_digit(mp: u16, m1: u16) -> int {
    let a = low_pos(mp) + 1;
    if has_digit(m1, a) {
        other_digit(m1, a)
    } else {
        other_digit(m1, bit_pos(mp, 1) + 1)
    }
}

/// The pivot digit the second pincer must share: the one the first pincer
/// does not hold.
pub open spec fn xy_other_pivot(mp: u16, m1: u16) -> int {
    let a = low_pos(mp) + 1;
    if has_digit(m1, a) {
        bit_pos(mp, 1) + 1
    } else {
        a
    }
}

/// The eliminations of digit `d` among the cells below `n` that see both
/// pincers and are not the pivot.
pub open spec fn xy_elims_upto(
    b: LogicalBoard,
    p1: int,
    p2: int,
    pivot: int,
    d: u8,
    n: int,
) -> Seq<Elimination>
    decreases n,
{
    if n <= 0 {
        Seq::empty()
    } else {
        xy_elims_upto(b, p1, p2, pivot, d, n - 1) + if is_peer(p1, n - 1) && is_peer(p2, n - 1)
            && n - 1 != pivot && b.has_cand(n - 1, d as int) {
            seq![Elimination { index: (n - 1) as usize, value: d }]
        } else {
            Seq::empty()
        }
    }
}

/// The eliminations of digit `d` among the common peers of the two pincers,
/// the pivot excluded.
pub open spec fn xy_elims(b: LogicalBoard, p1: int, p2: int, pivot: int, d: u8) -> Seq<
    Elimination,
> {
    xy_elims_upto(b, p1, p2, pivot, d, 81)
}

/// An XY-Wing: a two-candidate pivot, a first pincer sharing exactly one
/// pivot digit, a second pincer holding the other pivot digit together with
/// the first pincer's spare digit `c`, and `c` still occurring among the
/// cells that see both pincers.
pub open spec fn xy_at(b: LogicalBoard, pivot: int, p1: int, p2: int) -> bool {
    let mp = b.candidates@[pivot];
    let m1 = b.candidates@[p1];
    let m2 = b.candidates@[p2];
    let a = low_pos(mp) + 1;
    let bd = bit_pos(mp, 1) + 1;
    let c = xy_c_digit(mp, m1);
    &&& 0 <= pivot < 81
    &&& b.cells@[pivot] == 0
    &&& count_bits(mp) == 2
    &&& is_peer(pivot, p1)
    &&& b.cells@[p1] == 0
    &&& count_bits(m1) == 2
    &&& (m1 & mp) != 0
    &&& (has_digit(m1, a) != has_digit(m1, bd))
    &&& is_peer(pivot, p2)
    &&& b.cells@[p2] == 0
    &&& count_bits(m2) == 2
    &&& (m2 & mp) != 0
    &&& p1 != p2
    &&& m2 == ((1u16 << ((xy_other_pivot(mp, m1) - 1) as u16)) | (1u16 << ((c - 1) as u16)))
    &&& 1 <= c <= 9
    &&& xy_elims(b, p1, p2, pivot, c as u8).len() > 0
}

/// The step an XY-Wing produces: no placement, the eliminations of `c`, and
/// the pivot and both pincers as causes, each with its own candidate digits.
pub open spec fn xy_step_at(b: LogicalBoard, pivot: int, p1: int, p2: int, s: SolvingStep) -> bool {
    let c = xy_c_digit(b.candidates@[pivot], b.candidates@[p1]);
    &&& s.technique@ == "XY-Wing"@
    &&& s.placements@.len() == 0
    &&& s.eliminations@ == xy_elims(b, p1, p2, pivot, c as u8)
    &&& s.cause@.len() == 3
    &&& s.cause@[0].index == pivot
    &&& s.cause@[0].candidates@ == digits_of(b.candidates@[pivot])
    &&& s.cause@[1].index == p1
    &&& s.cause@[1].candidates@ == digits_of(b.candidates@[p1])
    &&& s.cause@[2].index == p2
    &&& s.cause@[2].candidates@ == digits_of(b.candidates@[p2])
}

/// Some XY-Wing produces this step, and it is the first match in scan
/// order: pivots ascending, first pincers ascending, second pincers
/// ascending.
pub open spec fn some_xy_step(b: LogicalBoard, s: SolvingStep) -> bool {
    exists|pivot: int, p1: int, p2: int|
        #![trigger xy_step_at(b, pivot, p1, p2, s)]
        {
            &&& xy_at(b, pivot, p1, p2)
            &&& (forall|v: int, q1: int, q2: int|
                v < pivot || (v == pivot && q1 < p1) || (v == pivot && q1 == p1 && q2 < p2)
                    ==> !xy_at(b, v, q1, q2))
            &&& xy_step_at(b, pivot, p1, p2, s)
        }
}

/// Every XY-Wing elimination is valid.
proof fn lemma_xy_elims_valid(b: LogicalBoard, p1: int, p2: int, pivot: int, d: u8, n: int)
    requires
        b.wf(),
        1 <= d <= 9,
        n <= 81,
    ensures
        forall|j: int|
            0 <= j < xy_elims_upto(b, p1, p2, pivot, d, n).len() ==> elimination_valid(
                b,
                #[trigger] xy_elims_upto(b, p1, p2, pivot, d, n)[j],
            ),
    decreases n,
{
    if n > 0 {
        lemma_xy_elims_valid(b, p1, p2, pivot, d, n - 1);
        let s = xy_elims_upto(b, p1, p2, pivot, d, n);
        let rest = xy_elims_upto(b, p1, p2, pivot, d, n - 1);
        assert forall|j: int| 0 <= j < s.len() implies elimination_valid(b, #[trigger] s[j]) by {
            if j < rest.len() {
                assert(s[j] == rest[j]);
            }
        }
    }
}

/// Collects the eliminations of `val` among the cells seeing both pincers,
/// excluding the pivot, in ascending cell order.
fn find_xy_wing_eliminations(
    board: &LogicalBoard,
    p1: usize,
    p2: usize,
    pivot: usize,
    val: u8,
) -> (r: Vec<Elimination>)
    requires
        board.wf(),
        p1 < 81,
        p2 < 81,
        pivot < 81,
        1 <= val <= 9,
    ensures
        r@ == xy_elims(*board, p1 as int, p2 as int, pivot as int, val),
{
    let mut r: Vec<Elimination> = Vec::new();
    let mut j: usize = 0;
    while j < 81
        invariant
            board.wf(),
            p1 < 81,
            p2 < 81,
            pivot < 81,
            1 <= val <= 9,
            j <= 81,
            r@ == xy_elims_upto(*board, p1 as int, p2 as int, pivot as int, val, j as int),
        decreases 81 - j,
    {
        if are_peers(p1, j) && are_peers(p2, j) && j != pivot && board.cells[j] == 0 && mask_has(
            board.candidates[j],
            val,
        ) {
            r.push(Elimination { index: j, value: val });
        }
        j = j + 1;
    }
    r
}

/// Builds the three-cell explanation list of a wing: each cell with its own
/// remaining candidates.
fn wing_causes(board: &LogicalBoard, pivot: usize, p1: usize, p2: usize) -> (r: Vec<CauseCell>)
    requires
        board.wf(),
        pivot < 81,
        p1 < 81,
        p2 < 81,
    ensures
        r@.len() == 3,
        r@[0].index == pivot,
        r@[0].candidates@ == digits_of(board.candidates@[pivot as int]),
        r@[1].index == p1,
        r@[1].candidates@ == digits_of(board.candidates@[p1 as int]),
        r@[2].index == p2,
        r@[2].candidates@ == digits_of(board.candidates@[p2 as int]),
{
    let mut r: Vec<CauseCell> = Vec::new();
    r.push(CauseCell { index: pivot, candidates: mask_to_vec(board.candidates[pivot]) });
    r.push(CauseCell { index: p1, candidates: mask_to_vec(board.candidates[p1]) });
    r.push(CauseCell { index: p2, candidates: mask_to_vec(board.candidates[p2]) });
    r
}

/// Searches for an XY-Wing: pivots in ascending cell order, first pincers
/// ascending among the pivot's peers, then second pincers ascending.
pub fn find_xy_wing(board: &LogicalBoard) -> (r: Option<SolvingStep>)
    requires
        board.wf(),
    ensures
        (r is Some) <==> (exists|pivot: int, p1: int, p2: int| xy_at(*board, pivot, p1, p2)),
        r matches Some(s) ==> some_xy_step(*board, s),
        r matches Some(s) ==> step_sound(*board, s),
{
    let mut pivot: usize = 0;
    while pivot < 81
        invariant
            board.wf(),
            pivot <= 81,
            forall|v: int, p1: int, p2: int| 0 <= v < pivot ==> !xy_at(*board, v, p1, p2),
        decreases 81 - pivot,
    {
        let mp = board.candidates[pivot];
        if board.cells[pivot] == 0 && mask_count(mp) == 2 {
            proof {
                lemma_low_pos(mp);
                lemma_mask_clear(mp, low_pos(mp) as u16);
                lemma_count_split(mp, low_pos(mp) as u16, 9);
                super::single_digit::lemma_two_bits(mp);
            }
            let a = mask_low_pos(mp) + 1;
            let bd = mask_low_pos(mp & !(1u16 << ((a - 1) as u16))) + 1;
            let mut p1: usize = 0;
            while p1 < 81
                invariant
                    board.wf(),
                    pivot < 81,
                    board.cells@[pivot as int] == 0,
                    mp == board.candidates@[pivot as int],
                    count_bits(mp) == 2,
                    a == low_pos(mp) + 1,
                    bd == bit_pos(mp, 1) + 1,
                    1 <= a < bd <= 9,
                    p1 <= 81,
                    forall|v: int, q1: int, q2: int| 0 <= v < pivot ==> !xy_at(*board, v, q1, q2),
                    forall|q1: int, q2: int| 0 <= q1 < p1 ==> !xy_at(*board, pivot as int, q1, q2),
                decreases 81 - p1,
            {
                let m1 = board.candidates[p1];
                let share_a = mask_has(m1, a as u8);
                let share_b = mask_has(m1, bd as u8);
                if are_peers(pivot, p1) && board.cells[p1] == 0 && mask_count(m1) == 2 && (m1 & mp)
                    != 0 && share_a != share_b {
                    proof {
                        lemma_low_pos(m1);
                    }
                    let shared: u8 = if share_a {
                        a as u8
                    } else {
                        bd as u8
                    };
                    proof {
                        assert(has_digit(m1, shared as int));
                        lemma_mask_clear(m1, (shared - 1) as u16);
                        lemma_count_split(m1, (shared - 1) as u16, 9);
                    }
                    let c = mask_low_pos(m1 & !(1u16 << ((shared - 1) as u16))) + 1;
                    let other: u8 = if share_a {
                        bd as u8
                    } else {
                        a as u8
                    };
                    proof {
                        super::single_digit::lemma_two_bits(mp);
                        assert(mask_bit(m1 & !(1u16 << ((shared - 1) as u16)), c as int - 1));
                        assert(has_digit(m1, c as int));
                        assert(!has_digit(m1, other as int));
                        assert(has_digit(mp, other as int));
                        assert(c == xy_c_digit(mp, m1));
                        assert(other == xy_other_pivot(mp, m1));
                    }
                    let target_mask = (1u16 << ((other - 1) as u16)) | (1u16 << ((c - 1) as u16));
                    let mut p2: usize = 0;
                    while p2 < 81
                        invariant
                            board.wf(),
                            pivot < 81,
                            p1 < 81,
                            board.cells@[pivot as int] == 0,
                            mp == board.candidates@[pivot as int],
                            count_bits(mp) == 2,
                            a == low_pos(mp) + 1,
                            bd == bit_pos(mp, 1) + 1,
                            1 <= a < bd <= 9,
                            m1 == board.candidates@[p1 as int],
                            is_peer(pivot as int, p1 as int),
                            board.cells@[p1 as int] == 0,
                            count_bits(m1) == 2,
                            (m1 & mp) != 0,
                            has_digit(m1, a as int) != has_digit(m1, bd as int),
                            1 <= c <= 9,
                            c == xy_c_digit(mp, m1),
                            other == xy_other_pivot(mp, m1),
                            target_mask == ((1u16 << ((xy_other_pivot(mp, m1) - 1) as u16)) | (
                            1u16 << ((xy_c_digit(mp, m1) - 1) as u16))),
                            has_digit(m1, c as int),
                            !has_digit(m1, other as int),
                            has_digit(mp, other as int),
                            1 <= other <= 9,
                            p2 <= 81,
                            forall|v: int, q1: int, q2: int|
                                0 <= v < pivot ==> !xy_at(*board, v, q1, q2),
                            forall|q1: int, q2: int|
                                0 <= q1 < p1 ==> !xy_at(*board, pivot as int, q1, q2),
                            forall|q2: int|
                                0 <= q2 < p2 ==> !xy_at(*board, pivot as int, p1 as int, q2),
                        decreases 81 - p2,
                    {
                        if p2 != p1 && are_peers(pivot, p2) && board.cells[p2] == 0
                            && board.candidates[p2] == target_mask {
                            proof {
                                let m2v = board.candidates@[p2 as int];
                                lemma_mask_single((other - 1) as u16);
                                lemma_mask_single((c - 1) as u16);
                                lemma_mask_or(
                                    1u16 << ((other - 1) as u16),
                                    1u16 << ((c - 1) as u16),
                                );
                                assert(c as int != other as int);
                                assert(mask_bit(m2v, other as int - 1));
                                assert(mask_bit(m2v, c as int - 1));
                                lemma_mask_and(m2v, mp);
                                lemma_nonzero_has_bit(m2v & mp);
                                assert(mask_bit(m2v & mp, other as int - 1));
                                assert((m2v & mp) != 0);
                                let r2m = m2v & !(1u16 << ((other - 1) as u16));
                                lemma_mask_clear(m2v, (other - 1) as u16);
                                lemma_mask_clear(r2m, (c - 1) as u16);
                                assert(forall|j: int|
                                    !(#[trigger] mask_bit(r2m & !(1u16 << ((c - 1) as u16)), j)));
                                crate::masks::lemma_count_upto_none(
                                    r2m & !(1u16 << ((c - 1) as u16)),
                                    9,
                                );
                                assert(mask_bit(r2m, c as int - 1));
                                crate::masks::lemma_count_split(r2m, (c - 1) as u16, 9);
                                crate::masks::lemma_count_split(m2v, (other - 1) as u16, 9);
                                assert(count_bits(m2v) == 2);
                            }
                            let elims = find_xy_wing_eliminations(board, p1, p2, pivot, c as u8);
                            if elims.len() > 0 {
                                let cause = wing_causes(board, pivot, p1, p2);
                                let s = SolvingStep {
                                    technique: "XY-Wing".to_owned(),
                                    placements: Vec::new(),
                                    eliminations: elims,
                                    cause,
                                };
                                proof {
                                    assert(count_bits(board.candidates@[p2 as int]) == 2);
                                    assert(xy_at(*board, pivot as int, p1 as int, p2 as int));
                                    assert forall|v: int, q1: int, q2: int|
                                        v < pivot as int || (v == pivot as int && q1 < p1 as int)
                                            || (v == pivot as int && q1 == p1 as int && q2
                                            < p2 as int) implies !xy_at(*board, v, q1, q2) by {
                                        if xy_at(*board, v, q1, q2) {
                                            assert(0 <= v && 0 <= q1 < 81 && 0 <= q2 < 81);
                                        }
                                    }
                                    assert(xy_step_at(
                                        *board,
                                        pivot as int,
                                        p1 as int,
                                        p2 as int,
                                        s,
                                    ));
                                    lemma_xy_elims_valid(
                                        *board,
                                        p1 as int,
                                        p2 as int,
                                        pivot as int,
                                        c as u8,
                                        81,
                                    );
                                    assert(some_xy_step(*board, s));
                                }
                                return Some(s);
                            }
                        }
                        proof {
                            assert(!xy_at(*board, pivot as int, p1 as int, p2 as int));
                        }
                        p2 = p2 + 1;
                    }
                }
                proof {
                    assert forall|q2: int| !xy_at(*board, pivot as int, p1 as int, q2) by {}
                }
                p1 = p1 + 1;
            }
        }
        proof {
            assert forall|q1: int, q2: int| !xy_at(*board, pivot as int, q1, q2) by {}
        }
        pivot = pivot + 1;
    }
    proof {
        assert forall|v: int, q1: int, q2: int| !xy_at(*board, v, q1, q2) by {}
    }
    None
}


// --- XYZ-Wing ---

/// The eliminations of digit `d` among the cells below `n` that see the
/// pivot and both pincers.
pub open spec fn xyz_elims_upto(
    b: LogicalBoard,
    pivot: int,
    p1: int,
    p2: int,
    d: u8,
    n: int,
) -> Seq<Elimination>
    decreases n,
{
    if n <= 0 {
        Seq::empty()
    } else {
        xyz_elims_upto(b, pivot, p1, p2, d, n - 1) + if is_peer(pivot, n - 1) && is_peer(p1, n - 1)
            && is_peer(p2, n - 1) && b.has_cand(n - 1, d as int) {
            seq![Elimination { index: (n - 1) as usize, value: d }]
        } else {
            Seq::empty()
        }
    }
}

/// The eliminations of digit `d` among the cells seeing all three wing
/// cells.
pub open spec fn xyz_elims(b: LogicalBoard, pivot: int, p1: int, p2: int, d: u8) -> Seq<
    Elimination,
> {
    xyz_elims_upto(b, pivot, p1, p2, d, 81)
}

/// An XYZ-Wing: a three-candidate pivot and two two-candidate pincers among
/// its peers, both subsets of the pivot, sharing exactly one digit `z` with
/// it, and `z` still occurring among the cells that see all three.
pub open spec fn xyz_at(b: LogicalBoard, pivot: int, p1: int, p2: int) -> bool {
    let mp = b.candidates@[pivot];
    let m1 = b.candidates@[p1];
    let m2 = b.candidates@[p2];
    let common = mp & m1 & m2;
    let z = low_pos(common) + 1;
    &&& 0 <= pivot < 81
    &&& b.cells@[pivot] == 0
    &&& count_bits(mp) == 3
    &&& is_peer(pivot, p1)
    &&& b.cells@[p1] == 0
    &&& count_bits(m1) == 2
    &&& (m1 & !mp) == 0
    &&& is_peer(pivot, p2)
    &&& b.cells@[p2] == 0
    &&& count_bits(m2) == 2
    &&& (m2 & !mp) == 0
    &&& p1 < p2
    &&& count_bits(common) == 1
    &&& xyz_elims(b, pivot, p1, p2, z as u8).len() > 0
}

/// The step an XYZ-Wing produces: no placement, the eliminations of the
/// shared digit, and the pivot and pincers as causes with their candidates.
pub open spec fn xyz_step_at(b: LogicalBoard, pivot: int, p1: int, p2: int, s: SolvingStep) -> bool {
    let z = low_pos(b.candidates@[pivot] & b.candidates@[p1] & b.candidates@[p2]) + 1;
    &&& s.technique@ == "XYZ-Wing"@
    &&& s.placements@.len() == 0
    &&& s.eliminations@ == xyz_elims(b, pivot, p1, p2, z as u8)
    &&& s.cause@.len() == 3
    &&& s.cause@[0].index == pivot
    &&& s.cause@[0].candidates@ == digits_of(b.candidates@[pivot])
    &&& s.cause@[1].index == p1
    &&& s.cause@[1].candidates@ == digits_of(b.candidates@[p1])
    &&& s.cause@[2].index == p2
    &&& s.cause@[2].candidates@ == digits_of(b.candidates@[p2])
}

/// Some XYZ-Wing produces this step, and it is the first match in scan
/// order: pivots ascending, pincer pairs in ascending lexicographic order.
pub open spec fn some_xyz_step(b: LogicalBoard, s: SolvingStep) -> bool {
    exists|pivot: int, p1: int, p2: int|
        #![trigger xyz_step_at(b, pivot, p1, p2, s)]
        {
            &&& xyz_at(b, pivot, p1, p2)
            &&& (forall|v: int, q1: int, q2: int|
                v < pivot || (v == pivot && q1 < p1) || (v == pivot && q1 == p1 && q2 < p2)
                    ==> !xyz_at(b, v, q1, q2))
            &&& xyz_step_at(b, pivot, p1, p2, s)
        }
}

/// Every XYZ-Wing elimination is valid.
proof fn lemma_xyz_elims_valid(b: LogicalBoard, pivot: int, p1: int, p2: int, d: u8, n: int)
    requires
        b.wf(),
        1 <= d <= 9,
        n <= 81,
    ensures
        forall|j: int|
            0 <= j < xyz_elims_upto(b, pivot, p1, p2, d, n).len() ==> elimination_valid(
                b,
                #[trigger] xyz_elims_upto(b, pivot, p1, p2, d, n)[j],
            ),
    decreases n,
{
    if n > 0 {
        lemma_xyz_elims_valid(b, pivot, p1, p2, d, n - 1);
        let s = xyz_elims_upto(b, pivot, p1, p2, d, n);
        let rest = xyz_elims_upto(b, pivot, p1, p2, d, n - 1);
        assert forall|j: int| 0 <= j < s.len() implies elimination_valid(b, #[trigger] s[j]) by {
            if j < rest.len() {
                assert(s[j] == rest[j]);
            }
        }
    }
}

/// Collects the eliminations of `val` among the cells seeing the pivot and
/// both pincers, in ascending cell order.
fn collect_xyz_eliminations(
    board: &LogicalBoard,
    pivot: usize,
    p1: usize,
    p2: usize,
    val: u8,
) -> (r: Vec<Elimination>)
    requires
        board.wf(),
        pivot < 81,
        p1 < 81,
        p2 < 81,
        1 <= val <= 9,
    ensures
        r@ == xyz_elims(*board, pivot as int, p1 as int, p2 as int, val),
{
    let mut r: Vec<Elimination> = Vec::new();
    let mut j: usize = 0;
    while j < 81
        invariant
            board.wf(),
            pivot < 81,
            p1 < 81,
            p2 < 81,
            1 <= val <= 9,
            j <= 81,
            r@ == xyz_elims_upto(*board, pivot as int, p1 as int, p2 as int, val, j as int),
        decreases 81 - j,
    {
        if are_peers(pivot, j) && are_peers(p1, j) && are_peers(p2, j) && board.cells[j] == 0
            && mask_has(board.candidates[j], val) {
            r.push(Elimination { index: j, value: val });
        }
        j = j + 1;
    }
    r
}

/// Searches for an XYZ-Wing: pivots in ascending cell order, pincer pairs in
/// ascending order.
pub fn find_xyz_wing(board: &LogicalBoard) -> (r: Option<SolvingStep>)
    requires
        board.wf(),
    ensures
        (r is Some) <==> (exists|pivot: int, p1: int, p2: int| xyz_at(*board, pivot, p1, p2)),
        r matches Some(s) ==> some_xyz_step(*board, s),
        r matches Some(s) ==> step_sound(*board, s),
{
    let mut pivot: usize = 0;
    while pivot < 81
        invariant
            board.wf(),
            pivot <= 81,
            forall|v: int, q1: int, q2: int| 0 <= v < pivot ==> !xyz_at(*board, v, q1, q2),
        decreases 81 - pivot,
    {
        let mp = board.candidates[pivot];
        if board.cells[pivot] == 0 && mask_count(mp) == 3 {
            let mut p1: usize = 0;
            while p1 < 81
                invariant
                    board.wf(),
                    pivot < 81,
                    board.cells@[pivot as int] == 0,
                    mp == board.candidates@[pivot as int],
                    count_bits(mp) == 3,
                    p1 <= 81,
                    forall|v: int, q1: int, q2: int| 0 <= v < pivot ==> !xyz_at(*board, v, q1, q2),
                    forall|q1: int, q2: int| 0 <= q1 < p1 ==> !xyz_at(*board, pivot as int, q1, q2),
                decreases 81 - p1,
            {
                let m1 = board.candidates[p1];
                if are_peers(pivot, p1) && board.cells[p1] == 0 && mask_count(m1) == 2 && (m1
                    & !mp) == 0 {
                    let mut p2: usize = p1 + 1;
                    while p2 < 81
                        invariant
                            board.wf(),
                            pivot < 81,
                            p1 < p2 <= 81,
                            board.cells@[pivot as int] == 0,
                            mp == board.candidates@[pivot as int],
                            count_bits(mp) == 3,
                            m1 == board.candidates@[p1 as int],
                            is_peer(pivot as int, p1 as int),
                            board.cells@[p1 as int] == 0,
                            count_bits(m1) == 2,
                            (m1 & !mp) == 0,
                            forall|v: int, q1: int, q2: int|
                                0 <= v < pivot ==> !xyz_at(*board, v, q1, q2),
                            forall|q1: int, q2: int|
                                0 <= q1 < p1 ==> !xyz_at(*board, pivot as int, q1, q2),
                            forall|q2: int|
                                p1 < q2 < p2 ==> !xyz_at(*board, pivot as int, p1 as int, q2),
                        decreases 81 - p2,
                    {
                        let m2 = board.candidates[p2];
                        if are_peers(pivot, p2) && board.cells[p2] == 0 && mask_count(m2) == 2 && (
                        m2 & !mp) == 0 {
                            let common = mp & m1 & m2;
                            proof {
                                lemma_mask_and(mp, m1);
                                lemma_mask_and(mp & m1, m2);
                            }
                            if mask_count(common) == 1 {
                                proof {
                                    lemma_low_pos(common);
                                }
                                let z = mask_low_pos(common) + 1;
                                let elims = collect_xyz_eliminations(
                                    board,
                                    pivot,
                                    p1,
                                    p2,
                                    z as u8,
                                );
                                if elims.len() > 0 {
                                    let cause = wing_causes(board, pivot, p1, p2);
                                    let s = SolvingStep {
                                        technique: "XYZ-Wing".to_owned(),
                                        placements: Vec::new(),
                                        eliminations: elims,
                                        cause,
                                    };
                                    proof {
                                        assert(xyz_at(*board, pivot as int, p1 as int, p2 as int));
                                        assert forall|v: int, q1: int, q2: int|
                                            v < pivot as int || (v == pivot as int && q1
                                                < p1 as int) || (v == pivot as int && q1
                                                == p1 as int && q2 < p2 as int) implies !xyz_at(
                                            *board,
                                            v,
                                            q1,
                                            q2,
                                        ) by {
                                            if xyz_at(*board, v, q1, q2) {
                                                assert(0 <= v && 0 <= q1 && q1 < q2 < 81);
                                            }
                                        }
                                        assert(xyz_step_at(
                                            *board,
                                            pivot as int,
                                            p1 as int,
                                            p2 as int,
                                            s,
                                        ));
                                        lemma_xyz_elims_valid(
                                            *board,
                                            pivot as int,
                                            p1 as int,
                                            p2 as int,
                                            z as u8,
                                            81,
                                        );
                                        assert(some_xyz_step(*board, s));
                                    }
                                    return Some(s);
                                }
                            }
                        }
                        proof {
                            assert(!xyz_at(*board, pivot as int, p1 as int, p2 as int));
                        }
                        p2 = p2 + 1;
                    }
                }
                proof {
                    assert forall|q2: int| !xyz_at(*board, pivot as int, p1 as int, q2) by {
                        if xyz_at(*board, pivot as int, p1 as int, q2) {
                            assert(p1 < q2 < 81);
                        }
                    }
                }
                p1 = p1 + 1;
            }
        }
        proof {
            assert forall|q1: int, q2: int| !xyz_at(*board, pivot as int, q1, q2) by {}
        }
        pivot = pivot + 1;
    }
    proof {
        assert forall|v: int, q1: int, q2: int| !xyz_at(*board, v, q1, q2) by {}
    }
    None
}

// --- W-Wing ---

/// A W-Wing: two non-peer cells with the same two candidates, joined through
/// a unit where one of the digits (the link, chosen by `sel`: 0 links the
/// lower digit, 1 the higher) occurs exactly twice, one end seeing each
/// cell; the other digit leaves every common peer of the two cells.
pub open spec fn ww_at(b: LogicalBoard, i1: int, i2: int, sel: int, u: int) -> bool {
    let m = b.candidates@[i1];
    let link = if sel == 0 {
        low_pos(m) + 1
    } else {
        bit_pos(m, 1) + 1
    };
    let elimd = if sel == 0 {
        bit_pos(m, 1) + 1
    } else {
        low_pos(m) + 1
    };
    let q1 = digit_cells(b, u, link)[0];
    let q2 = digit_cells(b, u, link)[1];
    &&& 0 <= i1 < i2 < 81
    &&& b.cells@[i1] == 0
    &&& b.cells@[i2] == 0
    &&& count_bits(m) == 2
    &&& b.candidates@[i2] == m
    &&& !is_peer(i1, i2)
    &&& 0 <= sel < 2
    &&& 0 <= u < 27
    &&& unit_digit_count(b, u, link) == 2
    &&& ((is_peer(i1, q1) && is_peer(i2, q2)) || (is_peer(i1, q2) && is_peer(i2, q1)))
    &&& common_peer_elims(b, i1, i2, elimd as u8).len() > 0
}

/// The step a W-Wing produces: no placement, the common-peer eliminations of
/// the non-linked digit, and the two wing cells plus the strong link's two
/// cells as causes.
pub open spec fn ww_step_at(b: LogicalBoard, i1: int, i2: int, sel: int, u: int, s: SolvingStep) -> bool {
    let m = b.candidates@[i1];
    let link = if sel == 0 {
        low_pos(m) + 1
    } else {
        bit_pos(m, 1) + 1
    };
    let elimd = if sel == 0 {
        bit_pos(m, 1) + 1
    } else {
        low_pos(m) + 1
    };
    let q1 = digit_cells(b, u, link)[0];
    let q2 = digit_cells(b, u, link)[1];
    &&& s.technique@ == "W-Wing"@
    &&& s.placements@.len() == 0
    &&& s.eliminations@ == common_peer_elims(b, i1, i2, elimd as u8)
    &&& s.cause@.len() == 4
    &&& s.cause@[0].index == i1
    &&& s.cause@[0].candidates@ == seq![link as u8, elimd as u8]
    &&& s.cause@[1].index == i2
    &&& s.cause@[1].candidates@ == seq![link as u8, elimd as u8]
    &&& s.cause@[2].index == q1
    &&& s.cause@[2].candidates@ == seq![link as u8]
    &&& s.cause@[3].index == q2
    &&& s.cause@[3].candidates@ == seq![link as u8]
}

/// The first strong-link unit for this cell pair and link digit produced
/// this step.
pub open spec fn first_ww_link(b: LogicalBoard, i1: int, i2: int, sel: int, s: SolvingStep) -> bool {
    exists|u: int|
        #![trigger ww_step_at(b, i1, i2, sel, u, s)]
        {
            &&& ww_at(b, i1, i2, sel, u)
            &&& (forall|u2: int| u2 < u ==> !ww_at(b, i1, i2, sel, u2))
            &&& ww_step_at(b, i1, i2, sel, u, s)
        }
}

/// Some W-Wing produces this step, and it is the first match in scan order:
/// cell pairs in ascending lexicographic order, the lower digit linked
/// before the higher, units ascending.
pub open spec fn some_ww_step(b: LogicalBoard, s: SolvingStep) -> bool {
    exists|i1: int, i2: int, sel: int, u: int|
        #![trigger ww_step_at(b, i1, i2, sel, u, s)]
        {
            &&& ww_at(b, i1, i2, sel, u)
            &&& (forall|x: int, y: int, sel2: int, u2: int|
                x < i1 || (x == i1 && y < i2) || (x == i1 && y == i2 && sel2 < sel) || (x == i1
                    && y == i2 && sel2 == sel && u2 < u) ==> !ww_at(b, x, y, sel2, u2))
            &&& ww_step_at(b, i1, i2, sel, u, s)
        }
}

/// Checks for a strong link on `link_val` connecting `idx1` and `idx2`,
/// scanning the 27 units in order; a match eliminates `elim_val` from the
/// cells' common peers.
fn check_w_wing_link(
    board: &LogicalBoard,
    idx1: usize,
    idx2: usize,
    link_val: u8,
    elim_val: u8,
    sel: usize,
) -> (r: Option<SolvingStep>)
    requires
        board.wf(),
        idx1 < idx2 < 81,
        board.cells@[idx1 as int] == 0,
        board.cells@[idx2 as int] == 0,
        count_bits(board.candidates@[idx1 as int]) == 2,
        board.candidates@[idx2 as int] == board.candidates@[idx1 as int],
        !is_peer(idx1 as int, idx2 as int),
        sel < 2,
        link_val as int == (if sel == 0 {
            low_pos(board.candidates@[idx1 as int]) + 1
        } else {
            bit_pos(board.candidates@[idx1 as int], 1) + 1
        }),
        elim_val as int == (if sel == 0 {
            bit_pos(board.candidates@[idx1 as int], 1) + 1
        } else {
            low_pos(board.candidates@[idx1 as int]) + 1
        }),
        1 <= link_val <= 9,
        1 <= elim_val <= 9,
    ensures
        (r is Some) <==> (exists|u: int| ww_at(*board, idx1 as int, idx2 as int, sel as int, u)),
        r matches Some(s) ==> first_ww_link(*board, idx1 as int, idx2 as int, sel as int, s),
        r matches Some(s) ==> step_sound(*board, s),
{
    let mut u: usize = 0;
    while u < 27
        invariant
            board.wf(),
            idx1 < idx2 < 81,
            board.cells@[idx1 as int] == 0,
            board.cells@[idx2 as int] == 0,
            count_bits(board.candidates@[idx1 as int]) == 2,
            board.candidates@[idx2 as int] == board.candidates@[idx1 as int],
            !is_peer(idx1 as int, idx2 as int),
            sel < 2,
            link_val as int == (if sel == 0 {
                low_pos(board.candidates@[idx1 as int]) + 1
            } else {
                bit_pos(board.candidates@[idx1 as int], 1) + 1
            }),
            elim_val as int == (if sel == 0 {
                bit_pos(board.candidates@[idx1 as int], 1) + 1
            } else {
                low_pos(board.candidates@[idx1 as int]) + 1
            }),
            1 <= link_val <= 9,
            1 <= elim_val <= 9,
            u <= 27,
            forall|u0: int| 0 <= u0 < u ==> !ww_at(*board, idx1 as int, idx2 as int, sel as int, u0),
        decreases 27 - u,
    {
        let mut cells: Vec<usize> = Vec::new();
        let mut k: usize = 0;
        while k < 9
            invariant
                board.wf(),
                u < 27,
                1 <= link_val <= 9,
                k <= 9,
                cells@.len() == unit_digit_count_upto(*board, u as int, link_val as int, k as int),
                cells@.map_values(|c: usize| c as int) =~= digit_cells_upto(
                    *board,
                    u as int,
                    link_val as int,
                    k as int,
                ),
                forall|j: int| 0 <= j < cells@.len() ==> (#[trigger] cells@[j]) < 81,
            decreases 9 - k,
        {
            let idx = unit_cell_at(u, k);
            if board.cells[idx] == 0 && mask_has(board.candidates[idx], link_val) {
                cells.push(idx);
                proof {
                    assert(cells@.map_values(|c: usize| c as int) =~= digit_cells_upto(
                        *board,
                        u as int,
                        link_val as int,
                        k as int + 1,
                    ));
                }
            }
            k = k + 1;
        }
        if cells.len() == 2 {
            let q1 = cells[0];
            let q2 = cells[1];
            proof {
                assert(q1 as int == digit_cells(*board, u as int, link_val as int)[0]);
                assert(q2 as int == digit_cells(*board, u as int, link_val as int)[1]);
            }
            let case1 = are_peers(idx1, q1) && are_peers(idx2, q2);
            let case2 = are_peers(idx1, q2) && are_peers(idx2, q1);
            if case1 || case2 {
                let elims = get_common_peer_eliminations(board, idx1, idx2, elim_val);
                if elims.len() > 0 {
                    let mut cc1: Vec<u8> = Vec::new();
                    cc1.push(link_val);
                    cc1.push(elim_val);
                    assert(cc1@ =~= seq![link_val, elim_val]);
                    let mut cc2: Vec<u8> = Vec::new();
                    cc2.push(link_val);
                    cc2.push(elim_val);
                    assert(cc2@ =~= seq![link_val, elim_val]);
                    let mut cq1: Vec<u8> = Vec::new();
                    cq1.push(link_val);
                    assert(cq1@ =~= seq![link_val]);
                    let mut cq2: Vec<u8> = Vec::new();
                    cq2.push(link_val);
                    assert(cq2@ =~= seq![link_val]);
                    let mut cause: Vec<CauseCell> = Vec::new();
                    cause.push(CauseCell { index: idx1, candidates: cc1 });
                    cause.push(CauseCell { index: idx2, candidates: cc2 });
                    cause.push(CauseCell { index: q1, candidates: cq1 });
                    cause.push(CauseCell { index: q2, candidates: cq2 });
                    let s = SolvingStep {
                        technique: "W-Wing".to_owned(),
                        placements: Vec::new(),
                        eliminations: elims,
                        cause,
                    };
                    proof {
                        assert(ww_at(*board, idx1 as int, idx2 as int, sel as int, u as int));
                        assert(ww_step_at(
                            *board,
                            idx1 as int,
                            idx2 as int,
                            sel as int,
                            u as int,
                            s,
                        ));
                        lemma_common_peer_elims_valid(
                            *board,
                            idx1 as int,
                            idx2 as int,
                            elim_val,
                            81,
                        );
                        assert(first_ww_link(*board, idx1 as int, idx2 as int, sel as int, s));
                    }
                    return Some(s);
                }
            }
        }
        proof {
            assert(!ww_at(*board, idx1 as int, idx2 as int, sel as int, u as int));
        }
        u = u + 1;
    }
    None
}

/// Searches for a W-Wing: cell pairs in ascending order, linking the lower
/// digit before the higher one.
pub fn find_w_wing(board: &LogicalBoard) -> (r: Option<SolvingStep>)
    requires
        board.wf(),
    ensures
        (r is Some) <==> (exists|i1: int, i2: int, sel: int, u: int| ww_at(*board, i1, i2, sel, u)),
        r matches Some(s) ==> some_ww_step(*board, s),
        r matches Some(s) ==> step_sound(*board, s),
{
    let mut i1: usize = 0;
    while i1 < 81
        invariant
            board.wf(),
            i1 <= 81,
            forall|a: int, b: int, sel: int, u: int| 0 <= a < i1 ==> !ww_at(*board, a, b, sel, u),
        decreases 81 - i1,
    {
        let m = board.candidates[i1];
        if board.cells[i1] == 0 && mask_count(m) == 2 {
            proof {
                super::single_digit::lemma_two_bits(m);
            }
            let a = mask_low_pos(m) + 1;
            proof {
                lemma_low_pos(m);
                lemma_mask_clear(m, low_pos(m) as u16);
                lemma_count_split(m, low_pos(m) as u16, 9);
            }
            let bd = mask_low_pos(m & !(1u16 << ((a - 1) as u16))) + 1;
            let mut i2: usize = i1 + 1;
            while i2 < 81
                invariant
                    board.wf(),
                    i1 < i2 <= 81,
                    board.cells@[i1 as int] == 0,
                    m == board.candidates@[i1 as int],
                    count_bits(m) == 2,
                    a == low_pos(m) + 1,
                    bd == bit_pos(m, 1) + 1,
                    1 <= a < bd <= 9,
                    forall|x: int, y: int, sel: int, u: int|
                        0 <= x < i1 ==> !ww_at(*board, x, y, sel, u),
                    forall|y: int, sel: int, u: int|
                        i1 < y < i2 ==> !ww_at(*board, i1 as int, y, sel, u),
                decreases 81 - i2,
            {
                if board.cells[i2] == 0 && board.candidates[i2] == m && !are_peers(i1, i2) {
                    if let Some(s) = check_w_wing_link(board, i1, i2, a as u8, bd as u8, 0) {
                        proof {
                            let u = choose|u: int|
                                #![trigger ww_step_at(*board, i1 as int, i2 as int, 0, u, s)]
                                {
                                    &&& ww_at(*board, i1 as int, i2 as int, 0, u)
                                    &&& (forall|u2: int|
                                        u2 < u ==> !ww_at(*board, i1 as int, i2 as int, 0, u2))
                                    &&& ww_step_at(*board, i1 as int, i2 as int, 0, u, s)
                                };
                            assert forall|x: int, y: int, sel2: int, u2: int|
                                x < i1 as int || (x == i1 as int && y < i2 as int) || (x
                                    == i1 as int && y == i2 as int && sel2 < 0) || (x == i1 as int
                                    && y == i2 as int && sel2 == 0 && u2 < u) implies !ww_at(
                                *board,
                                x,
                                y,
                                sel2,
                                u2,
                            ) by {
                                if ww_at(*board, x, y, sel2, u2) {
                                    assert(0 <= x && 0 <= sel2 < 2);
                                }
                            }
                            assert(some_ww_step(*board, s));
                        }
                        return Some(s);
                    }
                    if let Some(s) = check_w_wing_link(board, i1, i2, bd as u8, a as u8, 1) {
                        proof {
                            let u = choose|u: int|
                                #![trigger ww_step_at(*board, i1 as int, i2 as int, 1, u, s)]
                                {
                                    &&& ww_at(*board, i1 as int, i2 as int, 1, u)
                                    &&& (forall|u2: int|
                                        u2 < u ==> !ww_at(*board, i1 as int, i2 as int, 1, u2))
                                    &&& ww_step_at(*board, i1 as int, i2 as int, 1, u, s)
                                };
                            assert forall|x: int, y: int, sel2: int, u2: int|
                                x < i1 as int || (x == i1 as int && y < i2 as int) || (x
                                    == i1 as int && y == i2 as int && sel2 < 1) || (x == i1 as int
                                    && y == i2 as int && sel2 == 1 && u2 < u) implies !ww_at(
                                *board,
                                x,
                                y,
                                sel2,
                                u2,
                            ) by {
                                if ww_at(*board, x, y, sel2, u2) {
                                    assert(0 <= x && 0 <= sel2 < 2);
                                }
                            }
                            assert(some_ww_step(*board, s));
                        }
                        return Some(s);
                    }
                    proof {
                        assert forall|sel: int, u: int|
                            !ww_at(*board, i1 as int, i2 as int, sel, u) by {
                            if ww_at(*board, i1 as int, i2 as int, sel, u) {
                                assert(sel == 0 || sel == 1);
                            }
                        }
                    }
                } else {
                    proof {
                        assert forall|sel: int, u: int|
                            !ww_at(*board, i1 as int, i2 as int, sel, u) by {}
                    }
                }
                i2 = i2 + 1;
            }
        }
        proof {
            assert forall|y: int, sel: int, u: int| !ww_at(*board, i1 as int, y, sel, u) by {}
        }
        i1 = i1 + 1;
    }
    proof {
        assert forall|x: int, y: int, sel: int, u: int| !ww_at(*board, x, y, sel, u) by {}
    }
    None
}

} // verus!

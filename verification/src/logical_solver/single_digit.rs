//! Single-digit chain finders: skyscraper and two-string kite.
//!
//! Both work on one digit with two "strong" lines (lines holding the digit
//! exactly twice). A skyscraper links two parallel lines sharing one
//! orthogonal coordinate; a two-string kite links a row and a column through
//! a box. In both, the digit leaves every cell that sees both loose ends.

use vstd::prelude::*;

use crate::geometry::spec_box;
use crate::geometry::cell_box;
use crate::masks::{
    has_digit,
    mask_bit,
    count_bits,
    low_pos,
    mask_low_pos,
    mask_count,
    lemma_low_pos,
    lemma_mask_clear,
    lemma_mask_and,
    lemma_mask_single,
    lemma_mask_ext,
    lemma_count_split,
    lemma_count_one_unique,
};
use crate::types::{CauseCell, SolvingStep};
use super::{
    LogicalBoard,
    step_sound,
    common_peer_elims,
    lemma_common_peer_elims_valid,
    get_common_peer_eliminations,
};
use super::fish::{fish_cell, spec_line_mask, line_mask};

verus! {

/// The position of the `i`-th (0 or 1) set bit of `m`, lowest first.
pub open spec fn bit_pos(m: u16, i: int) -> int {
    if i == 0 {
        low_pos(m)
    } else {
        low_pos(m & !(1u16 << (low_pos(m) as u16)))
    }
}

/// A mask with exactly two bits has two distinct well-defined positions.
pub proof fn lemma_two_bits(m: u16)
    requires
        count_bits(m) == 2,
    ensures
        0 <= bit_pos(m, 0) < bit_pos(m, 1) < 9,
        mask_bit(m, bit_pos(m, 0)),
        mask_bit(m, bit_pos(m, 1)),
        forall|k: int| mask_bit(m, k) ==> k == bit_pos(m, 0) || k == bit_pos(m, 1),
{
    lemma_low_pos(m);
    let p0 = low_pos(m);
    let rest = m & !(1u16 << (p0 as u16));
    lemma_mask_clear(m, p0 as u16);
    lemma_count_split(m, p0 as u16, 9);
    lemma_low_pos(rest);
    let p1 = low_pos(rest);
    lemma_count_one_unique(rest, p1 + 1);
    assert forall|k: int| mask_bit(m, k) implies k == p0 || k == p1 by {
        if k != p0 {
            assert(mask_bit(rest, k));
            assert(has_digit(rest, k + 1));
        }
    }
}

/// A skyscraper on digit `d`: two base lines `l1 < l2` (rows when `rb`),
/// each holding `d` exactly twice, sharing exactly one orthogonal position;
/// the two non-shared occurrences are the roof cells `c1`, `c2`, and `d`
/// still occurs among their common peers.
pub open spec fn sky_at(
    b: LogicalBoard,
    d: int,
    rb: bool,
    l1: int,
    l2: int,
    c1: int,
    c2: int,
) -> bool {
    let m1 = spec_line_mask(b, d as u8, l1, rb);
    let m2 = spec_line_mask(b, d as u8, l2, rb);
    &&& 1 <= d <= 9
    &&& 0 <= l1 < l2 < 9
    &&& count_bits(m1) == 2
    &&& count_bits(m2) == 2
    &&& count_bits(m1 & m2) == 1
    &&& mask_bit(m1 & !(m1 & m2), c1)
    &&& mask_bit(m2 & !(m1 & m2), c2)
    &&& common_peer_elims(b, fish_cell(l1, c1, rb), fish_cell(l2, c2, rb), d as u8).len() > 0
}

/// The step a skyscraper produces: no placement, the roof cells' common-peer
/// eliminations, and the two roof and two base cells as causes.
pub open spec fn sky_step_at(
    b: LogicalBoard,
    d: u8,
    rb: bool,
    l1: int,
    l2: int,
    c1: int,
    c2: int,
    s: SolvingStep,
) -> bool {
    let m1 = spec_line_mask(b, d, l1, rb);
    let m2 = spec_line_mask(b, d, l2, rb);
    let bp = low_pos(m1 & m2);
    &&& s.technique@ == "Skyscraper"@
    &&& s.placements@.len() == 0
    &&& s.eliminations@ == common_peer_elims(b, fish_cell(l1, c1, rb), fish_cell(l2, c2, rb), d)
    &&& s.cause@.len() == 4
    &&& s.cause@[0].index == fish_cell(l1, c1, rb)
    &&& s.cause@[1].index == fish_cell(l2, c2, rb)
    &&& s.cause@[2].index == fish_cell(l1, bp, rb)
    &&& s.cause@[3].index == fish_cell(l2, bp, rb)
    &&& (forall|n: int| 0 <= n < 4 ==> (#[trigger] s.cause@[n]).candidates@ == seq![d])
}

/// The strong-line pair `l1 < l2` produced this step.
pub open spec fn sky_pair_step(b: LogicalBoard, d: u8, rb: bool, l1: int, l2: int, s: SolvingStep) -> bool {
    exists|c1: int, c2: int|
        #![trigger sky_step_at(b, d, rb, l1, l2, c1, c2, s)]
        {
            &&& sky_at(b, d as int, rb, l1, l2, c1, c2)
            &&& sky_step_at(b, d, rb, l1, l2, c1, c2, s)
        }
}

/// This orientation's first strong-line pair in lexicographic order
/// produced this step.
pub open spec fn first_sky_in_orientation(b: LogicalBoard, d: u8, rb: bool, s: SolvingStep) -> bool {
    exists|l1: int, l2: int|
        #![trigger sky_pair_step(b, d, rb, l1, l2, s)]
        {
            &&& sky_pair_step(b, d, rb, l1, l2, s)
            &&& (forall|a: int, e: int, x1: int, x2: int|
                a < l1 || (a == l1 && e < l2) ==> !sky_at(b, d as int, rb, a, e, x1, x2))
        }
}

/// Some skyscraper produces this step, and it is the first match in scan
/// order: digits ascending, rows as base lines before columns, line pairs
/// in ascending lexicographic order.
pub open spec fn some_sky_step(b: LogicalBoard, s: SolvingStep) -> bool {
    exists|d: u8, rb: bool, l1: int, l2: int, c1: int, c2: int|
        #![trigger sky_step_at(b, d, rb, l1, l2, c1, c2, s)]
        {
            &&& sky_at(b, d as int, rb, l1, l2, c1, c2)
            &&& (forall|e: int, rb2: bool, a: int, b2: int, x1: int, x2: int|
                e < d || (e == d && rb2 && !rb) || (e == d && rb2 == rb && (a < l1 || (a == l1
                    && b2 < l2))) ==> !sky_at(b, e, rb2, a, b2, x1, x2))
            &&& sky_step_at(b, d, rb, l1, l2, c1, c2, s)
        }
}

/// Builds a four-cell explanation list for a single digit.
fn four_causes(i0: usize, i1: usize, i2: usize, i3: usize, num: u8) -> (r: Vec<CauseCell>)
    ensures
        r@.len() == 4,
        r@[0].index == i0,
        r@[1].index == i1,
        r@[2].index == i2,
        r@[3].index == i3,
        forall|n: int| 0 <= n < 4 ==> (#[trigger] r@[n]).candidates@ == seq![num],
{
    let mut r: Vec<CauseCell> = Vec::new();
    let mut cc: Vec<u8> = Vec::new();
    cc.push(num);
    assert(cc@ =~= seq![num]);
    let mut c1: Vec<u8> = Vec::new();
    c1.push(num);
    assert(c1@ =~= seq![num]);
    let mut c2: Vec<u8> = Vec::new();
    c2.push(num);
    assert(c2@ =~= seq![num]);
    let mut c3: Vec<u8> = Vec::new();
    c3.push(num);
    assert(c3@ =~= seq![num]);
    r.push(CauseCell { index: i0, candidates: cc });
    r.push(CauseCell { index: i1, candidates: c1 });
    r.push(CauseCell { index: i2, candidates: c2 });
    r.push(CauseCell { index: i3, candidates: c3 });
    r
}

/// Checks one pair of strong lines for a skyscraper.
fn check_skyscraper_pair(
    board: &LogicalBoard,
    num: u8,
    is_row: bool,
    l1: usize,
    l2: usize,
    m1: u16,
    m2: u16,
) -> (r: Option<SolvingStep>)
    requires
        board.wf(),
        1 <= num <= 9,
        l1 < l2 < 9,
        m1 == spec_line_mask(*board, num, l1 as int, is_row),
        m2 == spec_line_mask(*board, num, l2 as int, is_row),
        count_bits(m1) == 2,
        count_bits(m2) == 2,
    ensures
        (r is Some) <==> (exists|c1: int, c2: int|
            sky_at(*board, num as int, is_row, l1 as int, l2 as int, c1, c2)),
        r matches Some(s) ==> sky_pair_step(*board, num, is_row, l1 as int, l2 as int, s),
        r matches Some(s) ==> step_sound(*board, s),
{
    let common = m1 & m2;
    proof {
        super::fish::lemma_line_mask_bits(*board, num, l1 as int, is_row, 9);
        super::fish::lemma_line_mask_bits(*board, num, l2 as int, is_row, 9);
        lemma_mask_and(m1, m2);
    }
    if mask_count(common) != 1 {
        return None;
    }
    proof {
        lemma_low_pos(common);
        lemma_low_pos(m1);
        lemma_low_pos(m2);
        lemma_mask_clear(m1, low_pos(common) as u16);
        lemma_mask_clear(m2, low_pos(common) as u16);
        lemma_count_one_unique(common, low_pos(common) + 1);
        assert forall|k: int| mask_bit(common, k) implies k == low_pos(common) by {
            assert(has_digit(common, k + 1));
        }
        lemma_mask_single(low_pos(common) as u16);
        lemma_mask_ext(common, 1u16 << (low_pos(common) as u16));
        lemma_count_split(m1, low_pos(common) as u16, 9);
        lemma_count_split(m2, low_pos(common) as u16, 9);
    }
    let bp = mask_low_pos(common);
    let r1 = m1 & !(1u16 << (bp as u16));
    let r2 = m2 & !(1u16 << (bp as u16));
    let c1 = mask_low_pos(r1);
    let c2 = mask_low_pos(r2);
    let roof1 = if is_row {
        l1 * 9 + c1
    } else {
        c1 * 9 + l1
    };
    let roof2 = if is_row {
        l2 * 9 + c2
    } else {
        c2 * 9 + l2
    };
    let base1 = if is_row {
        l1 * 9 + bp
    } else {
        bp * 9 + l1
    };
    let base2 = if is_row {
        l2 * 9 + bp
    } else {
        bp * 9 + l2
    };
    let elims = get_common_peer_eliminations(board, roof1, roof2, num);
    proof {
        lemma_count_one_unique(r1, low_pos(r1) + 1);
        lemma_count_one_unique(r2, low_pos(r2) + 1);
        assert forall|e1: int, e2: int|
            sky_at(*board, num as int, is_row, l1 as int, l2 as int, e1, e2) implies e1
            == c1 as int && e2 == c2 as int by {
            assert(has_digit(r1, e1 + 1) || e1 == c1 as int);
            assert(has_digit(r2, e2 + 1) || e2 == c2 as int);
        }
    }
    if elims.len() > 0 {
        let cause = four_causes(roof1, roof2, base1, base2, num);
        let s = SolvingStep {
            technique: "Skyscraper".to_owned(),
            placements: Vec::new(),
            eliminations: elims,
            cause,
        };
        proof {
            assert(sky_at(
                *board,
                num as int,
                is_row,
                l1 as int,
                l2 as int,
                c1 as int,
                c2 as int,
            ));
            assert(sky_step_at(
                *board,
                num,
                is_row,
                l1 as int,
                l2 as int,
                c1 as int,
                c2 as int,
                s,
            ));
            lemma_common_peer_elims_valid(*board, roof1 as int, roof2 as int, num, 81);
            assert(sky_pair_step(*board, num, is_row, l1 as int, l2 as int, s));
        }
        return Some(s);
    }
    proof {
        assert forall|e1: int, e2: int|
            !sky_at(*board, num as int, is_row, l1 as int, l2 as int, e1, e2) by {}
    }
    None
}

/// Searches for a skyscraper: digits ascending, rows as base lines before
/// columns, line pairs ascending.
pub fn find_skyscraper(board: &LogicalBoard) -> (r: Option<SolvingStep>)
    requires
        board.wf(),
    ensures
        (r is Some) <==> (exists|d: int, rb: bool, l1: int, l2: int, c1: int, c2: int|
            sky_at(*board, d, rb, l1, l2, c1, c2)),
        r matches Some(s) ==> some_sky_step(*board, s),
        r matches Some(s) ==> step_sound(*board, s),
{
    let mut num: u8 = 1;
    while num <= 9
        invariant
            board.wf(),
            1 <= num <= 10,
            forall|d: int, rb: bool, l1: int, l2: int, c1: int, c2: int|
                1 <= d < num ==> !sky_at(*board, d, rb, l1, l2, c1, c2),
        decreases 10 - num,
    {
        if let Some(s) = check_skyscraper(board, num, true) {
            proof {
                let (l1, l2) = choose|l1: int, l2: int|
                    #![trigger sky_pair_step(*board, num, true, l1, l2, s)]
                    {
                        &&& sky_pair_step(*board, num, true, l1, l2, s)
                        &&& (forall|a: int, e: int, x1: int, x2: int|
                            a < l1 || (a == l1 && e < l2) ==> !sky_at(
                                *board,
                                num as int,
                                true,
                                a,
                                e,
                                x1,
                                x2,
                            ))
                    };
                assert forall|e: int, rb2: bool, a: int, b2: int, x1: int, x2: int|
                    e < num as int || (e == num as int && rb2 && !true) || (e == num as int && rb2
                        == true && (a < l1 || (a == l1 && b2 < l2))) implies !sky_at(
                    *board,
                    e,
                    rb2,
                    a,
                    b2,
                    x1,
                    x2,
                ) by {
                    if sky_at(*board, e, rb2, a, b2, x1, x2) {
                        assert(1 <= e <= 9);
                    }
                }
                assert(some_sky_step(*board, s));
            }
            return Some(s);
        }
        if let Some(s) = check_skyscraper(board, num, false) {
            proof {
                let (l1, l2) = choose|l1: int, l2: int|
                    #![trigger sky_pair_step(*board, num, false, l1, l2, s)]
                    {
                        &&& sky_pair_step(*board, num, false, l1, l2, s)
                        &&& (forall|a: int, e: int, x1: int, x2: int|
                            a < l1 || (a == l1 && e < l2) ==> !sky_at(
                                *board,
                                num as int,
                                false,
                                a,
                                e,
                                x1,
                                x2,
                            ))
                    };
                assert forall|e: int, rb2: bool, a: int, b2: int, x1: int, x2: int|
                    e < num as int || (e == num as int && rb2 && !false) || (e == num as int && rb2
                        == false && (a < l1 || (a == l1 && b2 < l2))) implies !sky_at(
                    *board,
                    e,
                    rb2,
                    a,
                    b2,
                    x1,
                    x2,
                ) by {
                    if sky_at(*board, e, rb2, a, b2, x1, x2) {
                        assert(1 <= e <= 9);
                    }
                }
                assert(some_sky_step(*board, s));
            }
            return Some(s);
        }
        num = num + 1;
    }
    proof {
        assert forall|d: int, rb: bool, l1: int, l2: int, c1: int, c2: int|
            !sky_at(*board, d, rb, l1, l2, c1, c2) by {
            if sky_at(*board, d, rb, l1, l2, c1, c2) {
                assert(1 <= d <= 9);
            }
        }
    }
    None
}

/// Checks one orientation for a skyscraper on one digit, scanning line pairs
/// in ascending order.
fn check_skyscraper(board: &LogicalBoard, num: u8, is_row: bool) -> (r: Option<SolvingStep>)
    requires
        board.wf(),
        1 <= num <= 9,
    ensures
        (r is Some) <==> (exists|l1: int, l2: int, c1: int, c2: int|
            sky_at(*board, num as int, is_row, l1, l2, c1, c2)),
        r matches Some(s) ==> first_sky_in_orientation(*board, num, is_row, s),
        r matches Some(s) ==> step_sound(*board, s),
{
    let mut l1: usize = 0;
    while l1 < 9
        invariant
            board.wf(),
            1 <= num <= 9,
            l1 <= 9,
            forall|a: int, b: int, c1: int, c2: int|
                0 <= a < l1 ==> !sky_at(*board, num as int, is_row, a, b, c1, c2),
        decreases 9 - l1,
    {
        let m1 = line_mask(board, num, l1, is_row);
        if mask_count(m1) == 2 {
            let mut l2: usize = l1 + 1;
            while l2 < 9
                invariant
                    board.wf(),
                    1 <= num <= 9,
                    l1 < l2 <= 9,
                    m1 == spec_line_mask(*board, num, l1 as int, is_row),
                    count_bits(m1) == 2,
                    forall|a: int, b: int, c1: int, c2: int|
                        0 <= a < l1 ==> !sky_at(*board, num as int, is_row, a, b, c1, c2),
                    forall|b: int, c1: int, c2: int|
                        l1 < b < l2 ==> !sky_at(*board, num as int, is_row, l1 as int, b, c1, c2),
                decreases 9 - l2,
            {
                let m2 = line_mask(board, num, l2, is_row);
                if mask_count(m2) == 2 {
                    if let Some(s) = check_skyscraper_pair(board, num, is_row, l1, l2, m1, m2) {
                        proof {
                            assert forall|a: int, e: int, x1: int, x2: int|
                                a < l1 as int || (a == l1 as int && e < l2 as int) implies !sky_at(
                                *board,
                                num as int,
                                is_row,
                                a,
                                e,
                                x1,
                                x2,
                            ) by {
                                if sky_at(*board, num as int, is_row, a, e, x1, x2) {
                                    assert(0 <= a < e);
                                }
                            }
                            assert(first_sky_in_orientation(*board, num, is_row, s));
                        }
                        return Some(s);
                    }
                }
                l2 = l2 + 1;
            }
        }
        l1 = l1 + 1;
    }
    None
}


// --- Two-String Kite ---

/// A two-string kite on digit `d`: row `r` and column `c` each hold `d`
/// exactly twice; the selected row occurrence (`sr`-th, lowest first) and
/// column occurrence (`sc`-th) are distinct cells of one box, and `d` still
/// occurs among the common peers of the two other occurrences.
pub open spec fn kite_at(b: LogicalBoard, d: int, r: int, c: int, sr: int, sc: int) -> bool {
    let rm = spec_line_mask(b, d as u8, r, true);
    let cm = spec_line_mask(b, d as u8, c, false);
    let rc = r * 9 + bit_pos(rm, sr);
    let cc = bit_pos(cm, sc) * 9 + c;
    let other_rc = r * 9 + bit_pos(rm, 1 - sr);
    let other_cc = bit_pos(cm, 1 - sc) * 9 + c;
    &&& 1 <= d <= 9
    &&& 0 <= r < 9
    &&& 0 <= c < 9
    &&& 0 <= sr < 2
    &&& 0 <= sc < 2
    &&& count_bits(rm) == 2
    &&& count_bits(cm) == 2
    &&& rc != cc
    &&& spec_box(rc) == spec_box(cc)
    &&& common_peer_elims(b, other_rc, other_cc, d as u8).len() > 0
}

/// The step a two-string kite produces: no placement, the eliminations among
/// the common peers of the two loose ends, and the four occurrences as
/// causes.
pub open spec fn kite_step_at(
    b: LogicalBoard,
    d: u8,
    r: int,
    c: int,
    sr: int,
    sc: int,
    s: SolvingStep,
) -> bool {
    let rm = spec_line_mask(b, d, r, true);
    let cm = spec_line_mask(b, d, c, false);
    let rc = r * 9 + bit_pos(rm, sr);
    let cc = bit_pos(cm, sc) * 9 + c;
    let other_rc = r * 9 + bit_pos(rm, 1 - sr);
    let other_cc = bit_pos(cm, 1 - sc) * 9 + c;
    &&& s.technique@ == "TwoStringKite"@
    &&& s.placements@.len() == 0
    &&& s.eliminations@ == common_peer_elims(b, other_rc, other_cc, d)
    &&& s.cause@.len() == 4
    &&& s.cause@[0].index == rc
    &&& s.cause@[1].index == cc
    &&& s.cause@[2].index == other_rc
    &&& s.cause@[3].index == other_cc
    &&& (forall|n: int| 0 <= n < 4 ==> (#[trigger] s.cause@[n]).candidates@ == seq![d])
}

/// The first joining of this strong row and column (row occurrences tried
/// in position order, then column occurrences) produced this step.
pub open spec fn first_kite_at_cross(b: LogicalBoard, d: u8, r: int, c: int, s: SolvingStep) -> bool {
    exists|sr: int, sc: int|
        #![trigger kite_step_at(b, d, r, c, sr, sc, s)]
        {
            &&& kite_at(b, d as int, r, c, sr, sc)
            &&& (forall|a: int, e: int|
                a < sr || (a == sr && e < sc) ==> !kite_at(b, d as int, r, c, a, e))
            &&& kite_step_at(b, d, r, c, sr, sc, s)
        }
}

/// Some two-string kite produces this step, and it is the first match in
/// scan order: digits ascending, strong rows ascending, strong columns
/// ascending, then the four joinings in order.
pub open spec fn some_kite_step(b: LogicalBoard, s: SolvingStep) -> bool {
    exists|d: u8, r: int, c: int, sr: int, sc: int|
        #![trigger kite_step_at(b, d, r, c, sr, sc, s)]
        {
            &&& kite_at(b, d as int, r, c, sr, sc)
            &&& (forall|e: int, r2: int, c2: int, a: int, e2: int|
                e < d || (e == d && r2 < r) || (e == d && r2 == r && c2 < c) || (e == d && r2 == r
                    && c2 == c && (a < sr || (a == sr && e2 < sc))) ==> !kite_at(
                    b,
                    e,
                    r2,
                    c2,
                    a,
                    e2,
                ))
            &&& kite_step_at(b, d, r, c, sr, sc, s)
        }
}

/// Checks the four ways of joining one strong row and one strong column into
/// a kite, in selection order.
fn check_kite_intersection(
    board: &LogicalBoard,
    num: u8,
    r: usize,
    c: usize,
    rm: u16,
    cm: u16,
) -> (res: Option<SolvingStep>)
    requires
        board.wf(),
        1 <= num <= 9,
        r < 9,
        c < 9,
        rm == spec_line_mask(*board, num, r as int, true),
        cm == spec_line_mask(*board, num, c as int, false),
        count_bits(rm) == 2,
        count_bits(cm) == 2,
    ensures
        (res is Some) <==> (exists|sr: int, sc: int|
            kite_at(*board, num as int, r as int, c as int, sr, sc)),
        res matches Some(s) ==> first_kite_at_cross(*board, num, r as int, c as int, s),
        res matches Some(s) ==> step_sound(*board, s),
{
    proof {
        lemma_two_bits(rm);
        lemma_two_bits(cm);
        lemma_low_pos(rm);
        lemma_mask_clear(rm, low_pos(rm) as u16);
        lemma_count_split(rm, low_pos(rm) as u16, 9);
        lemma_low_pos(cm);
        lemma_mask_clear(cm, low_pos(cm) as u16);
        lemma_count_split(cm, low_pos(cm) as u16, 9);
    }
    let pr0 = mask_low_pos(rm);
    let pr1 = mask_low_pos(rm & !(1u16 << (pr0 as u16)));
    let pc0 = mask_low_pos(cm);
    let pc1 = mask_low_pos(cm & !(1u16 << (pc0 as u16)));
    proof {
        assert(pr0 == bit_pos(rm, 0) && pr1 == bit_pos(rm, 1));
        assert(pc0 == bit_pos(cm, 0) && pc1 == bit_pos(cm, 1));
    }
    let mut sr: usize = 0;
    while sr < 2
        invariant
            board.wf(),
            1 <= num <= 9,
            r < 9,
            c < 9,
            rm == spec_line_mask(*board, num, r as int, true),
            cm == spec_line_mask(*board, num, c as int, false),
            count_bits(rm) == 2,
            count_bits(cm) == 2,
            sr <= 2,
            pr0 == bit_pos(rm, 0) && pr1 == bit_pos(rm, 1),
            pc0 == bit_pos(cm, 0) && pc1 == bit_pos(cm, 1),
            pr0 < 9 && pr1 < 9 && pc0 < 9 && pc1 < 9,
            forall|a: int, e: int|
                0 <= a < sr ==> !kite_at(*board, num as int, r as int, c as int, a, e),
        decreases 2 - sr,
    {
        let mut sc: usize = 0;
        while sc < 2
            invariant
                board.wf(),
                1 <= num <= 9,
                r < 9,
                c < 9,
                rm == spec_line_mask(*board, num, r as int, true),
                cm == spec_line_mask(*board, num, c as int, false),
                count_bits(rm) == 2,
                count_bits(cm) == 2,
                sr < 2,
                sc <= 2,
                pr0 == bit_pos(rm, 0) && pr1 == bit_pos(rm, 1),
                pc0 == bit_pos(cm, 0) && pc1 == bit_pos(cm, 1),
                pr0 < 9 && pr1 < 9 && pc0 < 9 && pc1 < 9,
                forall|a: int, e: int|
                    0 <= a < sr ==> !kite_at(*board, num as int, r as int, c as int, a, e),
                forall|e: int|
                    0 <= e < sc ==> !kite_at(*board, num as int, r as int, c as int, sr as int, e),
            decreases 2 - sc,
        {
            let pr = if sr == 0 {
                pr0
            } else {
                pr1
            };
            let pc = if sc == 0 {
                pc0
            } else {
                pc1
            };
            let opr = if sr == 0 {
                pr1
            } else {
                pr0
            };
            let opc = if sc == 0 {
                pc1
            } else {
                pc0
            };
            let rc = r * 9 + pr;
            let cc = pc * 9 + c;
            let other_rc = r * 9 + opr;
            let other_cc = opc * 9 + c;
            if rc != cc && cell_box(rc) == cell_box(cc) {
                let elims = get_common_peer_eliminations(board, other_rc, other_cc, num);
                if elims.len() > 0 {
                    let cause = four_causes(rc, cc, other_rc, other_cc, num);
                    let s = SolvingStep {
                        technique: "TwoStringKite".to_owned(),
                        placements: Vec::new(),
                        eliminations: elims,
                        cause,
                    };
                    proof {
                        assert(kite_at(
                            *board,
                            num as int,
                            r as int,
                            c as int,
                            sr as int,
                            sc as int,
                        ));
                        assert(kite_step_at(
                            *board,
                            num,
                            r as int,
                            c as int,
                            sr as int,
                            sc as int,
                            s,
                        ));
                        lemma_common_peer_elims_valid(
                            *board,
                            other_rc as int,
                            other_cc as int,
                            num,
                            81,
                        );
                        assert(first_kite_at_cross(*board, num, r as int, c as int, s));
                    }
                    return Some(s);
                }
            }
            proof {
                assert(!kite_at(*board, num as int, r as int, c as int, sr as int, sc as int));
            }
            sc = sc + 1;
        }
        sr = sr + 1;
    }
    proof {
        assert forall|a: int, e: int|
            !kite_at(*board, num as int, r as int, c as int, a, e) by {}
    }
    None
}

/// Searches for a two-string kite: digits ascending, strong rows ascending,
/// strong columns ascending.
pub fn find_two_string_kite(board: &LogicalBoard) -> (r: Option<SolvingStep>)
    requires
        board.wf(),
    ensures
        (r is Some) <==> (exists|d: int, rr: int, c: int, sr: int, sc: int|
            kite_at(*board, d, rr, c, sr, sc)),
        r matches Some(s) ==> some_kite_step(*board, s),
        r matches Some(s) ==> step_sound(*board, s),
{
    let mut num: u8 = 1;
    while num <= 9
        invariant
            board.wf(),
            1 <= num <= 10,
            forall|d: int, rr: int, c: int, sr: int, sc: int|
                1 <= d < num ==> !kite_at(*board, d, rr, c, sr, sc),
        decreases 10 - num,
    {
        let mut rr: usize = 0;
        while rr < 9
            invariant
                board.wf(),
                1 <= num <= 9,
                rr <= 9,
                forall|d: int, r0: int, c: int, sr: int, sc: int|
                    1 <= d < num ==> !kite_at(*board, d, r0, c, sr, sc),
                forall|r0: int, c: int, sr: int, sc: int|
                    0 <= r0 < rr ==> !kite_at(*board, num as int, r0, c, sr, sc),
            decreases 9 - rr,
        {
            let rm = line_mask(board, num, rr, true);
            if mask_count(rm) == 2 {
                let mut cc: usize = 0;
                while cc < 9
                    invariant
                        board.wf(),
                        1 <= num <= 9,
                        rr < 9,
                        cc <= 9,
                        rm == spec_line_mask(*board, num, rr as int, true),
                        count_bits(rm) == 2,
                        forall|d: int, r0: int, c0: int, sr: int, sc: int|
                            1 <= d < num ==> !kite_at(*board, d, r0, c0, sr, sc),
                        forall|r0: int, c0: int, sr: int, sc: int|
                            0 <= r0 < rr ==> !kite_at(*board, num as int, r0, c0, sr, sc),
                        forall|c0: int, sr: int, sc: int|
                            0 <= c0 < cc ==> !kite_at(*board, num as int, rr as int, c0, sr, sc),
                    decreases 9 - cc,
                {
                    let cm = line_mask(board, num, cc, false);
                    if mask_count(cm) == 2 {
                        if let Some(s) = check_kite_intersection(board, num, rr, cc, rm, cm) {
                            proof {
                                let (sr, sc) = choose|sr: int, sc: int|
                                    #![trigger kite_step_at(*board, num, rr as int, cc as int, sr, sc, s)]
                                    {
                                        &&& kite_at(*board, num as int, rr as int, cc as int, sr, sc)
                                        &&& (forall|a: int, e: int|
                                            a < sr || (a == sr && e < sc) ==> !kite_at(
                                                *board,
                                                num as int,
                                                rr as int,
                                                cc as int,
                                                a,
                                                e,
                                            ))
                                        &&& kite_step_at(
                                            *board,
                                            num,
                                            rr as int,
                                            cc as int,
                                            sr,
                                            sc,
                                            s,
                                        )
                                    };
                                assert forall|e: int, r2: int, c2: int, a: int, e2: int|
                                    e < num as int || (e == num as int && r2 < rr as int) || (e
                                        == num as int && r2 == rr as int && c2 < cc as int) || (e
                                        == num as int && r2 == rr as int && c2 == cc as int && (a
                                        < sr || (a == sr && e2 < sc))) implies !kite_at(
                                    *board,
                                    e,
                                    r2,
                                    c2,
                                    a,
                                    e2,
                                ) by {
                                    if kite_at(*board, e, r2, c2, a, e2) {
                                        assert(1 <= e <= 9 && 0 <= r2 < 9 && 0 <= c2 < 9);
                                    }
                                }
                                assert(some_kite_step(*board, s));
                            }
                            return Some(s);
                        }
                    }
                    cc = cc + 1;
                }
            }
            rr = rr + 1;
        }
        num = num + 1;
    }
    proof {
        assert forall|d: int, rr: int, c: int, sr: int, sc: int|
            !kite_at(*board, d, rr, c, sr, sc) by {
            if kite_at(*board, d, rr, c, sr, sc) {
                assert(1 <= d <= 9);
            }
        }
    }
    None
}

} // verus!

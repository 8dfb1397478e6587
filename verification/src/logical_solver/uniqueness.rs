//! Uniqueness finder: unique rectangle type 1.
//!
//! Four empty cells on two rows, two columns and exactly two boxes, three of
//! them holding the same two candidates: if the fourth kept both digits
//! possible, the puzzle would admit two solutions. Assuming a unique
//! solution, the pair's digits leave the fourth corner.

use vstd::prelude::*;

use crate::geometry::{spec_box, cell_box};
use crate::masks::{has_digit, count_bits, digits_of, mask_count, mask_has, mask_to_vec, lemma_mask_and};
use crate::types::{Elimination, CauseCell, SolvingStep};
use super::{
    LogicalBoard,
    step_sound,
    cell_elims,
    cell_elims_upto,
    lemma_cell_elims_valid,
    lemma_cell_elims_empty,
};

verus! {

/// The `t`-th corner (0 top-left, 1 top-right, 2 bottom-left, 3
/// bottom-right) of the rectangle on rows `r1 < r2` and columns `c1 < c2`.
pub open spec fn ur_corner(r1: int, r2: int, c1: int, c2: int, t: int) -> int {
    if t == 0 {
        r1 * 9 + c1
    } else if t == 1 {
        r1 * 9 + c2
    } else if t == 2 {
        r2 * 9 + c1
    } else {
        r2 * 9 + c2
    }
}

/// The rectangle lies in exactly two boxes: the corners pair up vertically
/// or horizontally.
pub open spec fn ur_geometry_ok(r1: int, r2: int, c1: int, c2: int) -> bool {
    let btl = spec_box(r1 * 9 + c1);
    let btr = spec_box(r1 * 9 + c2);
    let bbl = spec_box(r2 * 9 + c1);
    let bbr = spec_box(r2 * 9 + c2);
    ||| (btl == bbl && btr == bbr && btl != btr)
    ||| (btl == btr && bbl == bbr && btl != bbl)
}

/// How many of the four masks equal `m`.
pub open spec fn ur_match_count(m0: u16, m1: u16, m2: u16, m3: u16, m: u16) -> int {
    (if m0 == m {
        1int
    } else {
        0int
    }) + (if m1 == m {
        1int
    } else {
        0int
    }) + (if m2 == m {
        1int
    } else {
        0int
    }) + (if m3 == m {
        1int
    } else {
        0int
    })
}

/// The number of rectangle corners whose candidate set equals `m`.
pub open spec fn ur_matches(b: LogicalBoard, r1: int, r2: int, c1: int, c2: int, m: u16) -> int {
    ur_match_count(
        b.candidates@[ur_corner(r1, r2, c1, c2, 0)],
        b.candidates@[ur_corner(r1, r2, c1, c2, 1)],
        b.candidates@[ur_corner(r1, r2, c1, c2, 2)],
        b.candidates@[ur_corner(r1, r2, c1, c2, 3)],
        m,
    )
}

/// A unique rectangle of type 1: a two-box rectangle of empty cells, at
/// least three corners carrying the identical pair `m`, and corner `t`
/// holding a strict superset of that pair.
pub open spec fn ur_at(
    b: LogicalBoard,
    r1: int,
    r2: int,
    c1: int,
    c2: int,
    t: int,
    m: u16,
) -> bool {
    &&& 0 <= r1 < r2 < 9
    &&& 0 <= c1 < c2 < 9
    &&& ur_geometry_ok(r1, r2, c1, c2)
    &&& (forall|t0: int| 0 <= t0 < 4 ==> b.cells@[#[trigger] ur_corner(r1, r2, c1, c2, t0)] == 0)
    &&& count_bits(m) == 2
    &&& ur_matches(b, r1, r2, c1, c2, m) >= 3
    &&& 0 <= t < 4
    &&& b.candidates@[ur_corner(r1, r2, c1, c2, t)] != m
    &&& (b.candidates@[ur_corner(r1, r2, c1, c2, t)] & m) == m
}

/// The step a unique rectangle produces: no placement, the pair's two
/// digits eliminated from the target corner, and the other three corners as
/// causes carrying the pair.
pub open spec fn ur_step_at(
    b: LogicalBoard,
    r1: int,
    r2: int,
    c1: int,
    c2: int,
    t: int,
    m: u16,
    s: SolvingStep,
) -> bool {
    &&& s.technique@ == "UniqueRectangleType1"@
    &&& s.placements@.len() == 0
    &&& s.eliminations@ == cell_elims(ur_corner(r1, r2, c1, c2, t), m)
    &&& s.cause@.len() == 3
    &&& (forall|n: int|
        0 <= n < 3 ==> (#[trigger] s.cause@[n]).candidates@ == digits_of(m))
    &&& s.cause@[0].index == ur_corner(r1, r2, c1, c2, if t == 0 {
        1
    } else {
        0
    })
    &&& s.cause@[1].index == ur_corner(r1, r2, c1, c2, if t <= 1 {
        2
    } else {
        1
    })
    &&& s.cause@[2].index == ur_corner(r1, r2, c1, c2, if t <= 2 {
        3
    } else {
        2
    })
}

/// Some unique rectangle produces this step, and it is the first match in
/// scan order: row pairs in ascending lexicographic order, then column
/// pairs, then the four corners as targets in reading order.
pub open spec fn some_ur_step(b: LogicalBoard, s: SolvingStep) -> bool {
    exists|r1: int, r2: int, c1: int, c2: int, t: int, m: u16|
        #![trigger ur_step_at(b, r1, r2, c1, c2, t, m, s)]
        {
            &&& ur_at(b, r1, r2, c1, c2, t, m)
            &&& (forall|a1: int, a2: int, b1: int, b2: int, t2: int, m2: u16|
                a1 < r1 || (a1 == r1 && a2 < r2) || (a1 == r1 && a2 == r2 && b1 < c1) || (a1 == r1
                    && a2 == r2 && b1 == c1 && b2 < c2) ==> !ur_at(b, a1, a2, b1, b2, t2, m2))
            &&& (forall|t2: int, m2: u16| t2 < t ==> !ur_at(b, r1, r2, c1, c2, t2, m2))
            &&& ur_step_at(b, r1, r2, c1, c2, t, m, s)
        }
}

/// Builds the rectangle step for target corner `t` with pair mask `m`.
fn build_ur_step(board: &LogicalBoard, r1: usize, r2: usize, c1: usize, c2: usize, t: usize, m: u16) -> (s:
    SolvingStep)
    requires
        board.wf(),
        r1 < r2 < 9,
        c1 < c2 < 9,
        t < 4,
        ur_at(*board, r1 as int, r2 as int, c1 as int, c2 as int, t as int, m),
    ensures
        ur_step_at(*board, r1 as int, r2 as int, c1 as int, c2 as int, t as int, m, s),
        step_sound(*board, s),
{
    let corners: [usize; 4] = [r1 * 9 + c1, r1 * 9 + c2, r2 * 9 + c1, r2 * 9 + c2];
    let target = corners[t];
    proof {
        assert(target == ur_corner(r1 as int, r2 as int, c1 as int, c2 as int, t as int));
    }
    let mut eliminations: Vec<Elimination> = Vec::new();
    let mut d: u8 = 1;
    while d <= 9
        invariant
            1 <= d <= 10,
            target < 81,
            eliminations@ == cell_elims_upto(target as int, m, d as int),
        decreases 10 - d,
    {
        if mask_has(m, d) {
            eliminations.push(Elimination { index: target, value: d });
        }
        d = d + 1;
    }
    let mut cause: Vec<CauseCell> = Vec::new();
    let mut n: usize = 0;
    while n < 4
        invariant
            board.wf(),
            r1 < r2 < 9,
            c1 < c2 < 9,
            t < 4,
            n <= 4,
            corners@ =~= seq![
                (r1 * 9 + c1) as usize,
                (r1 * 9 + c2) as usize,
                (r2 * 9 + c1) as usize,
                (r2 * 9 + c2) as usize,
            ],
            cause@.len() == (if n <= t {
                n as int
            } else {
                n - 1
            }),
            forall|j: int|
                0 <= j < cause@.len() ==> (#[trigger] cause@[j]).candidates@ == digits_of(m),
            forall|j: int|
                0 <= j < cause@.len() ==> (#[trigger] cause@[j]).index == ur_corner(
                    r1 as int,
                    r2 as int,
                    c1 as int,
                    c2 as int,
                    if j < t {
                        j
                    } else {
                        j + 1
                    },
                ),
        decreases 4 - n,
    {
        if n != t {
            cause.push(CauseCell { index: corners[n], candidates: mask_to_vec(m) });
        }
        n = n + 1;
    }
    let s = SolvingStep {
        technique: "UniqueRectangleType1".to_owned(),
        placements: Vec::new(),
        eliminations,
        cause,
    };
    proof {
        lemma_mask_and(board.candidates@[target as int], m);
        assert forall|e: int| has_digit(m, e) implies has_digit(
            board.candidates@[target as int],
            e,
        ) by {
            assert(crate::masks::mask_bit(board.candidates@[target as int] & m, e - 1)
                == (crate::masks::mask_bit(board.candidates@[target as int], e - 1)
                && crate::masks::mask_bit(m, e - 1)));
        }
        lemma_cell_elims_valid(*board, target as int, m, 10);
        lemma_cell_elims_empty(target as int, m, 10);
        crate::masks::lemma_low_pos(m);
        assert(has_digit(m, crate::masks::low_pos(m) + 1));
        assert(s.eliminations@.len() > 0);
        assert(s.cause@[0].index == ur_corner(r1 as int, r2 as int, c1 as int, c2 as int, if t
            == 0 {
            1
        } else {
            0
        }));
    }
    s
}

/// Picks the pair mask shared by at least three of the four corner masks,
/// trying the corners in order.
fn ur_find_common(m0: u16, m1: u16, m2: u16, m3: u16) -> (r: Option<u16>)
    ensures
        (r is Some) <==> (exists|m: u16|
            count_bits(m) == 2 && #[trigger] ur_match_count(m0, m1, m2, m3, m) >= 3),
        r matches Some(cm) ==> count_bits(cm) == 2 && ur_match_count(m0, m1, m2, m3, cm) >= 3,
{
    let mc0 = ur_matches_exec(m0, m1, m2, m3, m0);
    if mask_count(m0) == 2 && mc0 >= 3 {
        return Some(m0);
    }
    let mc1 = ur_matches_exec(m0, m1, m2, m3, m1);
    if mask_count(m1) == 2 && mc1 >= 3 {
        return Some(m1);
    }
    let mc2 = ur_matches_exec(m0, m1, m2, m3, m2);
    if mask_count(m2) == 2 && mc2 >= 3 {
        return Some(m2);
    }
    let mc3 = ur_matches_exec(m0, m1, m2, m3, m3);
    if mask_count(m3) == 2 && mc3 >= 3 {
        return Some(m3);
    }
    proof {
        assert forall|m: u16|
            !(count_bits(m) == 2 && #[trigger] ur_match_count(m0, m1, m2, m3, m) >= 3) by {
            if count_bits(m) == 2 && ur_match_count(m0, m1, m2, m3, m) >= 3 {
                assert(m0 == m || m1 == m || m2 == m || m3 == m);
            }
        }
    }
    None
}

/// Counts how many of the four masks equal `m`.
fn ur_matches_exec(m0: u16, m1: u16, m2: u16, m3: u16, m: u16) -> (n: usize)
    ensures
        n == ur_match_count(m0, m1, m2, m3, m),
{
    let mut n: usize = 0;
    if m0 == m {
        n = n + 1;
    }
    if m1 == m {
        n = n + 1;
    }
    if m2 == m {
        n = n + 1;
    }
    if m3 == m {
        n = n + 1;
    }
    n
}

/// Searches for a unique rectangle type 1: row pairs ascending, then column
/// pairs ascending.
pub fn find_unique_rectangle_type_1(board: &LogicalBoard) -> (r: Option<SolvingStep>)
    requires
        board.wf(),
    ensures
        (r is Some) <==> (exists|r1: int, r2: int, c1: int, c2: int, t: int, m: u16|
            ur_at(*board, r1, r2, c1, c2, t, m)),
        r matches Some(s) ==> some_ur_step(*board, s),
        r matches Some(s) ==> step_sound(*board, s),
{
    let mut r1: usize = 0;
    while r1 < 9
        invariant
            board.wf(),
            r1 <= 9,
            forall|a1: int, a2: int, b1: int, b2: int, t: int, m: u16|
                0 <= a1 < r1 ==> !ur_at(*board, a1, a2, b1, b2, t, m),
        decreases 9 - r1,
    {
        let mut r2: usize = r1 + 1;
        while r2 < 9
            invariant
                board.wf(),
                r1 < r2 <= 9,
                forall|a1: int, a2: int, b1: int, b2: int, t: int, m: u16|
                    0 <= a1 < r1 ==> !ur_at(*board, a1, a2, b1, b2, t, m),
                forall|a2: int, b1: int, b2: int, t: int, m: u16|
                    r1 < a2 < r2 ==> !ur_at(*board, r1 as int, a2, b1, b2, t, m),
            decreases 9 - r2,
        {
            let mut c1: usize = 0;
            while c1 < 9
                invariant
                    board.wf(),
                    r1 < r2 < 9,
                    c1 <= 9,
                    forall|a1: int, a2: int, b1: int, b2: int, t: int, m: u16|
                        0 <= a1 < r1 ==> !ur_at(*board, a1, a2, b1, b2, t, m),
                    forall|a2: int, b1: int, b2: int, t: int, m: u16|
                        r1 < a2 < r2 ==> !ur_at(*board, r1 as int, a2, b1, b2, t, m),
                    forall|b1: int, b2: int, t: int, m: u16|
                        0 <= b1 < c1 ==> !ur_at(*board, r1 as int, r2 as int, b1, b2, t, m),
                decreases 9 - c1,
            {
                let mut c2: usize = c1 + 1;
                while c2 < 9
                    invariant
                        board.wf(),
                        r1 < r2 < 9,
                        c1 < c2 <= 9,
                        forall|a1: int, a2: int, b1: int, b2: int, t: int, m: u16|
                            0 <= a1 < r1 ==> !ur_at(*board, a1, a2, b1, b2, t, m),
                        forall|a2: int, b1: int, b2: int, t: int, m: u16|
                            r1 < a2 < r2 ==> !ur_at(*board, r1 as int, a2, b1, b2, t, m),
                        forall|b1: int, b2: int, t: int, m: u16|
                            0 <= b1 < c1 ==> !ur_at(*board, r1 as int, r2 as int, b1, b2, t, m),
                        forall|b2: int, t: int, m: u16|
                            c1 < b2 < c2 ==> !ur_at(
                                *board,
                                r1 as int,
                                r2 as int,
                                c1 as int,
                                b2,
                                t,
                                m,
                            ),
                    decreases 9 - c2,
                {
                    let tl = r1 * 9 + c1;
                    let tr = r1 * 9 + c2;
                    let bl = r2 * 9 + c1;
                    let br = r2 * 9 + c2;
                    let geom_ok = (cell_box(tl) == cell_box(bl) && cell_box(tr) == cell_box(br)
                        && cell_box(tl) != cell_box(tr)) || (cell_box(tl) == cell_box(tr)
                        && cell_box(bl) == cell_box(br) && cell_box(tl) != cell_box(bl));
                    let all_empty = board.cells[tl] == 0 && board.cells[tr] == 0
                        && board.cells[bl] == 0 && board.cells[br] == 0;
                    if geom_ok && all_empty {
                        let m0 = board.candidates[tl];
                        let m1 = board.candidates[tr];
                        let m2 = board.candidates[bl];
                        let m3 = board.candidates[br];
                        if let Some(cm) = ur_find_common(m0, m1, m2, m3) {
                            proof {
                                assert forall|t: int, m: u16|
                                    ur_at(
                                        *board,
                                        r1 as int,
                                        r2 as int,
                                        c1 as int,
                                        c2 as int,
                                        t,
                                        m,
                                    ) implies m == cm by {
                                    if m != cm {
                                        assert(ur_match_count(m0, m1, m2, m3, m) + ur_match_count(
                                            m0,
                                            m1,
                                            m2,
                                            m3,
                                            cm,
                                        ) <= 4);
                                    }
                                }
                            }
                            let mut t: usize = 0;
                            while t < 4
                                invariant
                                    board.wf(),
                                    r1 < r2 < 9,
                                    c1 < c2 < 9,
                                    t <= 4,
                                    tl == r1 * 9 + c1,
                                    tr == r1 * 9 + c2,
                                    bl == r2 * 9 + c1,
                                    br == r2 * 9 + c2,
                                    m0 == board.candidates@[tl as int],
                                    m1 == board.candidates@[tr as int],
                                    m2 == board.candidates@[bl as int],
                                    m3 == board.candidates@[br as int],
                                    forall|a1: int, a2: int, b1: int, b2: int, t0: int, mm: u16|
                                        0 <= a1 < r1 ==> !ur_at(*board, a1, a2, b1, b2, t0, mm),
                                    forall|a2: int, b1: int, b2: int, t0: int, mm: u16|
                                        r1 < a2 < r2 ==> !ur_at(*board, r1 as int, a2, b1, b2, t0, mm),
                                    forall|b1: int, b2: int, t0: int, mm: u16|
                                        0 <= b1 < c1 ==> !ur_at(
                                            *board,
                                            r1 as int,
                                            r2 as int,
                                            b1,
                                            b2,
                                            t0,
                                            mm,
                                        ),
                                    forall|b2: int, t0: int, mm: u16|
                                        c1 < b2 < c2 ==> !ur_at(
                                            *board,
                                            r1 as int,
                                            r2 as int,
                                            c1 as int,
                                            b2,
                                            t0,
                                            mm,
                                        ),
                                    ur_geometry_ok(r1 as int, r2 as int, c1 as int, c2 as int),
                                    board.cells@[tl as int] == 0,
                                    board.cells@[tr as int] == 0,
                                    board.cells@[bl as int] == 0,
                                    board.cells@[br as int] == 0,
                                    count_bits(cm) == 2,
                                    ur_match_count(m0, m1, m2, m3, cm) >= 3,
                                    forall|t0: int, m: u16|
                                        ur_at(
                                            *board,
                                            r1 as int,
                                            r2 as int,
                                            c1 as int,
                                            c2 as int,
                                            t0,
                                            m,
                                        ) ==> m == cm,
                                    forall|t0: int|
                                        0 <= t0 < t ==> !ur_at(
                                            *board,
                                            r1 as int,
                                            r2 as int,
                                            c1 as int,
                                            c2 as int,
                                            t0,
                                            cm,
                                        ),
                                decreases 4 - t,
                            {
                                let mt = board.candidates[if t == 0 {
                                    tl
                                } else if t == 1 {
                                    tr
                                } else if t == 2 {
                                    bl
                                } else {
                                    br
                                }];
                                if mt != cm && (mt & cm) == cm {
                                    proof {
                                        assert forall|t0: int|
                                            0 <= t0 < 4 implies board.cells@[#[trigger] ur_corner(
                                            r1 as int,
                                            r2 as int,
                                            c1 as int,
                                            c2 as int,
                                            t0,
                                        )] == 0 by {
                                            assert(ur_corner(
                                                r1 as int,
                                                r2 as int,
                                                c1 as int,
                                                c2 as int,
                                                t0,
                                            ) == tl || ur_corner(
                                                r1 as int,
                                                r2 as int,
                                                c1 as int,
                                                c2 as int,
                                                t0,
                                            ) == tr || ur_corner(
                                                r1 as int,
                                                r2 as int,
                                                c1 as int,
                                                c2 as int,
                                                t0,
                                            ) == bl || ur_corner(
                                                r1 as int,
                                                r2 as int,
                                                c1 as int,
                                                c2 as int,
                                                t0,
                                            ) == br);
                                        }
                                        assert(ur_at(
                                            *board,
                                            r1 as int,
                                            r2 as int,
                                            c1 as int,
                                            c2 as int,
                                            t as int,
                                            cm,
                                        ));
                                    }
                                    let s = build_ur_step(board, r1, r2, c1, c2, t, cm);
                                    proof {
                                        assert forall|
                                            a1: int,
                                            a2: int,
                                            b1: int,
                                            b2: int,
                                            t2: int,
                                            mm: u16,
                                        |
                                            a1 < r1 as int || (a1 == r1 as int && a2 < r2 as int)
                                                || (a1 == r1 as int && a2 == r2 as int && b1
                                                < c1 as int) || (a1 == r1 as int && a2 == r2 as int
                                                && b1 == c1 as int && b2
                                                < c2 as int) implies !ur_at(
                                            *board,
                                            a1,
                                            a2,
                                            b1,
                                            b2,
                                            t2,
                                            mm,
                                        ) by {
                                            if ur_at(*board, a1, a2, b1, b2, t2, mm) {
                                                assert(0 <= a1 < a2 && 0 <= b1 < b2);
                                            }
                                        }
                                        assert forall|t2: int, mm: u16| t2 < t implies !ur_at(
                                            *board,
                                            r1 as int,
                                            r2 as int,
                                            c1 as int,
                                            c2 as int,
                                            t2,
                                            mm,
                                        ) by {
                                            if ur_at(
                                                *board,
                                                r1 as int,
                                                r2 as int,
                                                c1 as int,
                                                c2 as int,
                                                t2,
                                                mm,
                                            ) {
                                                assert(mm == cm && 0 <= t2 < 4);
                                            }
                                        }
                                        assert(some_ur_step(*board, s));
                                    }
                                    return Some(s);
                                }
                                proof {
                                    assert(!ur_at(
                                        *board,
                                        r1 as int,
                                        r2 as int,
                                        c1 as int,
                                        c2 as int,
                                        t as int,
                                        cm,
                                    ));
                                }
                                t = t + 1;
                            }
                            proof {
                                assert forall|t0: int, m: u16|
                                    !ur_at(
                                        *board,
                                        r1 as int,
                                        r2 as int,
                                        c1 as int,
                                        c2 as int,
                                        t0,
                                        m,
                                    ) by {
                                    if ur_at(
                                        *board,
                                        r1 as int,
                                        r2 as int,
                                        c1 as int,
                                        c2 as int,
                                        t0,
                                        m,
                                    ) {
                                        assert(m == cm && 0 <= t0 < 4);
                                    }
                                }
                            }
                        } else {
                            proof {
                                assert forall|t0: int, m: u16|
                                    !ur_at(
                                        *board,
                                        r1 as int,
                                        r2 as int,
                                        c1 as int,
                                        c2 as int,
                                        t0,
                                        m,
                                    ) by {
                                    if ur_at(
                                        *board,
                                        r1 as int,
                                        r2 as int,
                                        c1 as int,
                                        c2 as int,
                                        t0,
                                        m,
                                    ) {
                                        assert(count_bits(m) == 2 && ur_match_count(
                                            m0,
                                            m1,
                                            m2,
                                            m3,
                                            m,
                                        ) >= 3);
                                    }
                                }
                            }
                        }
                    } else {
                        proof {
                            assert forall|t0: int, m: u16|
                                !ur_at(*board, r1 as int, r2 as int, c1 as int, c2 as int, t0, m) by {
                            }
                        }
                    }
                    c2 = c2 + 1;
                }
                c1 = c1 + 1;
            }
            r2 = r2 + 1;
        }
        r1 = r1 + 1;
    }
    proof {
        assert forall|a1: int, a2: int, b1: int, b2: int, t: int, m: u16|
            !ur_at(*board, a1, a2, b1, b2, t, m) by {}
    }
    None
}

} // verus!

//! Fish finders: X-Wing, Swordfish and Jellyfish (sizes 2..4).
//!
//! A fish of size k on digit `d` is a set of k base lines (rows or columns)
//! in which `d` occurs two to k times each, whose occurrences together span
//! at most k covering lines of the other orientation: `d` can then leave the
//! covering lines outside the base lines. A union spanning fewer than k
//! covering lines (a degenerate fish) is accepted as a match, following the
//! same-or-fewer covers reading of the pattern.
//!
//! Scan order, deliberately: digits ascending; within a digit each size in
//! turn (two, three, four), rows as base lines before columns within a
//! size. The tie-break listing "row-orientation before column-orientation,
//! ascending size" is read per size, not with size innermost.

use vstd::prelude::*;

use crate::masks::{
    mask_bit,
    count_bits,
    mask_has,
    mask_count,
    mask_has_bit,
    lemma_mask_or,
    lemma_mask_single,
    lemma_mask_or_bound,
    lemma_mask_extremes,
};
use crate::types::{Elimination, CauseCell, SolvingStep};
use super::{LogicalBoard, step_sound, elimination_valid};

verus! {

/// The cell of line `l` at orthogonal position `p`: lines are rows when
/// `rb` (row-base) holds, else columns.
pub open spec fn fish_cell(l: int, p: int, rb: bool) -> int {
    if rb {
        l * 9 + p
    } else {
        p * 9 + l
    }
}

/// Whether digit `d` is a candidate at position `p` of line `l`.
pub open spec fn fish_pos(b: LogicalBoard, d: int, l: int, p: int, rb: bool) -> bool {
    b.has_cand(fish_cell(l, p, rb), d)
}

/// The mask of positions below `n` of line `l` where digit `d` remains.
pub open spec fn line_mask_upto(b: LogicalBoard, d: u8, l: int, rb: bool, n: int) -> u16
    decreases n,
{
    if n <= 0 {
        0u16
    } else {
        line_mask_upto(b, d, l, rb, n - 1) | (if fish_pos(b, d as int, l, n - 1, rb) {
            1u16 << ((n - 1) as u16)
        } else {
            0u16
        })
    }
}

/// The mask of positions of line `l` where digit `d` remains.
pub open spec fn spec_line_mask(b: LogicalBoard, d: u8, l: int, rb: bool) -> u16 {
    line_mask_upto(b, d, l, rb, 9)
}

/// The bits of a line mask are the positions where the digit remains.
pub proof fn lemma_line_mask_bits(b: LogicalBoard, d: u8, l: int, rb: bool, n: int)
    requires
        n <= 9,
    ensures
        line_mask_upto(b, d, l, rb, n) < 512,
        forall|p: int|
            #[trigger] mask_bit(line_mask_upto(b, d, l, rb, n), p) <==> (0 <= p < n && fish_pos(
                b,
                d as int,
                l,
                p,
                rb,
            )),
    decreases n,
{
    lemma_mask_extremes();
    if n > 0 {
        lemma_line_mask_bits(b, d, l, rb, n - 1);
        let rest = line_mask_upto(b, d, l, rb, n - 1);
        if fish_pos(b, d as int, l, n - 1, rb) {
            lemma_mask_single((n - 1) as u16);
            lemma_mask_or(rest, 1u16 << ((n - 1) as u16));
            lemma_mask_or_bound(rest, 1u16 << ((n - 1) as u16));
        } else {
            assert(rest | 0u16 == rest) by (bit_vector);
        }
    }
}

/// The union of the line masks of the lines `ls`.
pub open spec fn fish_union(b: LogicalBoard, d: u8, ls: Seq<usize>, rb: bool) -> u16
    decreases ls.len(),
{
    if ls.len() == 0 {
        0u16
    } else {
        fish_union(b, d, ls.drop_last(), rb) | spec_line_mask(b, d, ls.last() as int, rb)
    }
}

/// The fish eliminations in covering position `p`: digit `d` leaves every
/// line outside the base set `ls` that still holds it there.
pub open spec fn fish_col_elims_upto(
    b: LogicalBoard,
    d: u8,
    ls: Seq<usize>,
    rb: bool,
    p: int,
    no: int,
) -> Seq<Elimination>
    decreases no,
{
    if no <= 0 {
        Seq::empty()
    } else {
        fish_col_elims_upto(b, d, ls, rb, p, no - 1) + {
            let idx = fish_cell(no - 1, p, rb);
            if !ls.contains((no - 1) as usize) && b.has_cand(idx, d as int) {
                seq![Elimination { index: idx as usize, value: d }]
            } else {
                Seq::empty()
            }
        }
    }
}

/// The fish eliminations over the covering positions below `np` of the
/// union mask `um`.
pub open spec fn fish_elims_upto(
    b: LogicalBoard,
    d: u8,
    ls: Seq<usize>,
    rb: bool,
    um: u16,
    np: int,
) -> Seq<Elimination>
    decreases np,
{
    if np <= 0 {
        Seq::empty()
    } else {
        fish_elims_upto(b, d, ls, rb, um, np - 1) + if mask_bit(um, np - 1) {
            fish_col_elims_upto(b, d, ls, rb, np - 1, 9)
        } else {
            Seq::empty()
        }
    }
}

/// All the eliminations of a fish on base lines `ls` with union mask `um`.
pub open spec fn fish_elims(b: LogicalBoard, d: u8, ls: Seq<usize>, rb: bool, um: u16) -> Seq<
    Elimination,
> {
    fish_elims_upto(b, d, ls, rb, um, 9)
}


/// The cells of line `l` in covering positions below `np` that still hold
/// digit `d`, in position order.
pub open spec fn fish_cause_line_upto(
    b: LogicalBoard,
    d: u8,
    l: int,
    rb: bool,
    um: u16,
    np: int,
) -> Seq<int>
    decreases np,
{
    if np <= 0 {
        Seq::empty()
    } else {
        fish_cause_line_upto(b, d, l, rb, um, np - 1) + if mask_bit(um, np - 1) && b.has_cand(
            fish_cell(l, np - 1, rb),
            d as int,
        ) {
            seq![fish_cell(l, np - 1, rb)]
        } else {
            Seq::empty()
        }
    }
}

/// The explanation cells of a fish: for each base line in order, its cells
/// in covering positions that still hold the digit.
pub open spec fn fish_cause_cells(
    b: LogicalBoard,
    d: u8,
    ls: Seq<usize>,
    rb: bool,
    um: u16,
    ni: int,
) -> Seq<int>
    decreases ni,
{
    if ni <= 0 {
        Seq::empty()
    } else {
        fish_cause_cells(b, d, ls, rb, um, ni - 1) + fish_cause_line_upto(
            b,
            d,
            ls[ni - 1] as int,
            rb,
            um,
            9,
        )
    }
}

/// A fish of the given size on digit `d`: ascending base lines, each with
/// two to `size` occurrences, whose union spans at most `size` covering
/// positions, with something to eliminate.
pub open spec fn fish_at(b: LogicalBoard, d: int, size: int, rb: bool, ls: Seq<usize>) -> bool {
    &&& 1 <= d <= 9
    &&& ls.len() == size
    &&& (forall|i: int| 0 <= i < ls.len() ==> (#[trigger] ls[i]) < 9)
    &&& (forall|i: int, j: int| 0 <= i < j < ls.len() ==> ls[i] < ls[j])
    &&& (forall|i: int|
        0 <= i < ls.len() ==> 2 <= count_bits(
            spec_line_mask(b, d as u8, #[trigger] ls[i] as int, rb),
        ) <= size)
    &&& count_bits(fish_union(b, d as u8, ls, rb)) <= size
    &&& fish_elims(b, d as u8, ls, rb, fish_union(b, d as u8, ls, rb)).len() > 0
}

/// The step a fish produces: no placement, the fish's eliminations, and a
/// non-empty explanation list of cells each carrying the digit.
pub open spec fn fish_step_at(
    b: LogicalBoard,
    d: u8,
    rb: bool,
    ls: Seq<usize>,
    tech: Seq<char>,
    s: SolvingStep,
) -> bool {
    &&& s.technique@ == tech
    &&& s.placements@.len() == 0
    &&& s.eliminations@ == fish_elims(b, d, ls, rb, fish_union(b, d, ls, rb))
    &&& s.cause@.len() == fish_cause_cells(
        b,
        d,
        ls,
        rb,
        fish_union(b, d, ls, rb),
        ls.len() as int,
    ).len()
    &&& s.cause@.len() > 0
    &&& (forall|n: int|
        0 <= n < s.cause@.len() ==> {
            &&& (#[trigger] s.cause@[n]).index == fish_cause_cells(
                b,
                d,
                ls,
                rb,
                fish_union(b, d, ls, rb),
                ls.len() as int,
            )[n]
            &&& s.cause@[n].candidates@ == seq![d]
        })
}

/// The name of a fish of the given size.
pub open spec fn fish_name(size: int) -> Seq<char> {
    if size == 2 {
        "X-Wing"@
    } else if size == 3 {
        "Swordfish"@
    } else {
        "Jellyfish"@
    }
}

/// The first size-two base-line pair in lexicographic order produced this
/// step.
pub open spec fn first_fish_2(b: LogicalBoard, d: int, rb: bool, tech: Seq<char>, s: SolvingStep) -> bool {
    exists|l1: usize, l2: usize|
        #![trigger fish2_at(b, d, rb, l1, l2)]
        {
            &&& fish2_at(b, d, rb, l1, l2)
            &&& (forall|a: usize, e: usize|
                a < l1 || (a == l1 && e < l2) ==> !fish2_at(b, d, rb, a, e))
            &&& fish_step_at(b, d as u8, rb, seq![l1, l2], tech, s)
        }
}

/// The first size-three base-line triple in lexicographic order produced
/// this step.
pub open spec fn first_fish_3(b: LogicalBoard, d: int, rb: bool, tech: Seq<char>, s: SolvingStep) -> bool {
    exists|l1: usize, l2: usize, l3: usize|
        #![trigger fish3_at(b, d, rb, l1, l2, l3)]
        {
            &&& fish3_at(b, d, rb, l1, l2, l3)
            &&& (forall|a: usize, e: usize, f: usize|
                a < l1 || (a == l1 && (e < l2 || (e == l2 && f < l3))) ==> !fish3_at(
                    b,
                    d,
                    rb,
                    a,
                    e,
                    f,
                ))
            &&& fish_step_at(b, d as u8, rb, seq![l1, l2, l3], tech, s)
        }
}

/// The first size-four base-line quadruple in lexicographic order produced
/// this step.
pub open spec fn first_fish_4(b: LogicalBoard, d: int, rb: bool, tech: Seq<char>, s: SolvingStep) -> bool {
    exists|l1: usize, l2: usize, l3: usize, l4: usize|
        #![trigger fish4_at(b, d, rb, l1, l2, l3, l4)]
        {
            &&& fish4_at(b, d, rb, l1, l2, l3, l4)
            &&& (forall|a: usize, e: usize, f: usize, g: usize|
                a < l1 || (a == l1 && (e < l2 || (e == l2 && (f < l3 || (f == l3 && g
                    < l4))))) ==> !fish4_at(b, d, rb, a, e, f, g))
            &&& fish_step_at(b, d as u8, rb, seq![l1, l2, l3, l4], tech, s)
        }
}

/// Some fish produces this step, on the first digit with any fish, at the
/// smallest size that digit admits, with rows as base lines tried before
/// columns; within a digit, size and orientation the base-line set is the
/// first match in lexicographic order.
pub open spec fn some_fish_step(b: LogicalBoard, s: SolvingStep) -> bool {
    exists|d: int, size: int, rb: bool, ls: Seq<usize>|
        #![trigger fish_at(b, d, size, rb, ls), fish_step_at(b, d as u8, rb, ls, fish_name(size), s)]
        {
            &&& fish_at(b, d, size, rb, ls)
            &&& (forall|e: int| 1 <= e < d ==> !fish_exists_for_digit(b, e))
            &&& (forall|size2: int, rb2: bool, ls2: Seq<usize>|
                2 <= size2 < size ==> !fish_at(b, d, size2, rb2, ls2))
            &&& (!rb ==> (forall|ls2: Seq<usize>| !fish_at(b, d, size, true, ls2)))
            &&& first_fish_of_size(b, d, size, rb, s)
            &&& fish_step_at(b, d as u8, rb, ls, fish_name(size), s)
        }
}

/// The step came from the size's first base-line set in lexicographic order.
pub open spec fn first_fish_of_size(b: LogicalBoard, d: int, size: int, rb: bool, s: SolvingStep) -> bool {
    if size == 2 {
        first_fish_2(b, d, rb, fish_name(2), s)
    } else if size == 3 {
        first_fish_3(b, d, rb, fish_name(3), s)
    } else {
        first_fish_4(b, d, rb, fish_name(4), s)
    }
}

/// A fish on the explicit pair of base lines `l1 < l2`.
pub open spec fn fish2_at(b: LogicalBoard, d: int, rb: bool, l1: usize, l2: usize) -> bool {
    fish_at(b, d, 2, rb, seq![l1, l2])
}

/// A fish on the explicit triple of base lines.
pub open spec fn fish3_at(b: LogicalBoard, d: int, rb: bool, l1: usize, l2: usize, l3: usize) -> bool {
    fish_at(b, d, 3, rb, seq![l1, l2, l3])
}

/// A fish on the explicit quadruple of base lines.
pub open spec fn fish4_at(
    b: LogicalBoard,
    d: int,
    rb: bool,
    l1: usize,
    l2: usize,
    l3: usize,
    l4: usize,
) -> bool {
    fish_at(b, d, 4, rb, seq![l1, l2, l3, l4])
}

/// A fish on any base set of size two to four is a fish on an explicit pair,
/// triple or quadruple of lines.
pub proof fn lemma_fish_exists_forms(b: LogicalBoard, d: int, size: int, rb: bool, ls: Seq<usize>)
    requires
        fish_at(b, d, size, rb, ls),
        2 <= size <= 4,
    ensures
        size == 2 ==> fish2_at(b, d, rb, ls[0], ls[1]),
        size == 3 ==> fish3_at(b, d, rb, ls[0], ls[1], ls[2]),
        size == 4 ==> fish4_at(b, d, rb, ls[0], ls[1], ls[2], ls[3]),
{
    if size == 2 {
        assert(ls =~= seq![ls[0], ls[1]]);
    } else if size == 3 {
        assert(ls =~= seq![ls[0], ls[1], ls[2]]);
    } else {
        assert(ls =~= seq![ls[0], ls[1], ls[2], ls[3]]);
    }
}

/// Every fish elimination is valid.
proof fn lemma_fish_elims_valid(
    b: LogicalBoard,
    d: u8,
    ls: Seq<usize>,
    rb: bool,
    um: u16,
    np: int,
)
    requires
        b.wf(),
        1 <= d <= 9,
        np <= 9,
    ensures
        forall|j: int|
            0 <= j < fish_elims_upto(b, d, ls, rb, um, np).len() ==> elimination_valid(
                b,
                #[trigger] fish_elims_upto(b, d, ls, rb, um, np)[j],
            ),
    decreases np,
{
    if np > 0 {
        lemma_fish_elims_valid(b, d, ls, rb, um, np - 1);
        lemma_fish_col_elims_valid(b, d, ls, rb, np - 1, 9);
        let s = fish_elims_upto(b, d, ls, rb, um, np);
        let rest = fish_elims_upto(b, d, ls, rb, um, np - 1);
        assert forall|j: int| 0 <= j < s.len() implies elimination_valid(b, #[trigger] s[j]) by {
            if j < rest.len() {
                assert(s[j] == rest[j]);
            } else {
                let tail = fish_col_elims_upto(b, d, ls, rb, np - 1, 9);
                assert(s[j] == tail[j - rest.len()]);
            }
        }
    }
}

/// Every elimination within one covering position is valid.
proof fn lemma_fish_col_elims_valid(
    b: LogicalBoard,
    d: u8,
    ls: Seq<usize>,
    rb: bool,
    p: int,
    no: int,
)
    requires
        b.wf(),
        1 <= d <= 9,
        no <= 9,
    ensures
        forall|j: int|
            0 <= j < fish_col_elims_upto(b, d, ls, rb, p, no).len() ==> elimination_valid(
                b,
                #[trigger] fish_col_elims_upto(b, d, ls, rb, p, no)[j],
            ),
    decreases no,
{
    if no > 0 {
        lemma_fish_col_elims_valid(b, d, ls, rb, p, no - 1);
        let s = fish_col_elims_upto(b, d, ls, rb, p, no);
        let rest = fish_col_elims_upto(b, d, ls, rb, p, no - 1);
        assert forall|j: int| 0 <= j < s.len() implies elimination_valid(b, #[trigger] s[j]) by {
            if j < rest.len() {
                assert(s[j] == rest[j]);
            }
        }
    }
}

/// Computes the mask of positions of line `l` where `num` remains.
pub(crate) fn line_mask(board: &LogicalBoard, num: u8, l: usize, is_row: bool) -> (m: u16)
    requires
        board.wf(),
        1 <= num <= 9,
        l < 9,
    ensures
        m == spec_line_mask(*board, num, l as int, is_row),
        m < 512,
{
    let mut m: u16 = 0;
    let mut p: usize = 0;
    while p < 9
        invariant
            board.wf(),
            1 <= num <= 9,
            l < 9,
            p <= 9,
            m == line_mask_upto(*board, num, l as int, is_row, p as int),
            m < 512,
        decreases 9 - p,
    {
        let idx = if is_row {
            l * 9 + p
        } else {
            p * 9 + l
        };
        if board.cells[idx] == 0 && mask_has(board.candidates[idx], num) {
            let bit = 1u16 << (p as u16);
            proof {
                lemma_mask_single(p as u16);
                lemma_mask_or_bound(m, 1u16 << (p as u16));
            }
            m = m | bit;
        } else {
            proof {
                assert(m | 0u16 == m) by (bit_vector);
            }
        }
        p = p + 1;
    }
    m
}

/// Checks membership of `x` in the small line list `v`.
fn lines_contain(v: &Vec<usize>, x: usize) -> (r: bool)
    ensures
        r == v@.contains(x),
{
    let mut i: usize = 0;
    while i < v.len()
        invariant
            i <= v@.len(),
            forall|j: int| 0 <= j < i ==> v@[j] != x,
        decreases v@.len() - i,
    {
        if v[i] == x {
            return true;
        }
        i = i + 1;
    }
    false
}

/// Collects the eliminations of a fish with base lines `lines` and union
/// mask `um`: the digit leaves every covering position's other lines.
fn collect_fish_eliminations(
    board: &LogicalBoard,
    num: u8,
    lines: &Vec<usize>,
    um: u16,
    is_row: bool,
) -> (r: Vec<Elimination>)
    requires
        board.wf(),
        1 <= num <= 9,
    ensures
        r@ == fish_elims(*board, num, lines@, is_row, um),
{
    let mut r: Vec<Elimination> = Vec::new();
    let mut p: usize = 0;
    while p < 9
        invariant
            board.wf(),
            1 <= num <= 9,
            p <= 9,
            r@ == fish_elims_upto(*board, num, lines@, is_row, um, p as int),
        decreases 9 - p,
    {
        if mask_has_bit(um, p) {
            let ghost prefix = r@;
            let mut o: usize = 0;
            while o < 9
                invariant
                    board.wf(),
                    1 <= num <= 9,
                    p < 9,
                    o <= 9,
                    r@ == prefix + fish_col_elims_upto(*board, num, lines@, is_row, p as int, o as int),
                decreases 9 - o,
            {
                let idx = if is_row {
                    o * 9 + p
                } else {
                    p * 9 + o
                };
                if !lines_contain(lines, o) && board.cells[idx] == 0 && mask_has(
                    board.candidates[idx],
                    num,
                ) {
                    r.push(Elimination { index: idx, value: num });
                }
                o = o + 1;
            }
        }
        p = p + 1;
    }
    r
}

/// Collects the explanation cells of a fish: every base-line cell in a
/// covering position that still holds the digit, lines in order, positions
/// ascending.
fn collect_fish_causes(board: &LogicalBoard, num: u8, lines: &Vec<usize>, um: u16, is_row: bool) -> (r:
    Vec<CauseCell>)
    requires
        board.wf(),
        1 <= num <= 9,
        forall|i: int| 0 <= i < lines@.len() ==> (#[trigger] lines@[i]) < 9,
    ensures
        r@.len() == fish_cause_cells(*board, num, lines@, is_row, um, lines@.len() as int).len(),
        forall|n: int|
            0 <= n < r@.len() ==> {
                &&& (#[trigger] r@[n]).index == fish_cause_cells(
                    *board,
                    num,
                    lines@,
                    is_row,
                    um,
                    lines@.len() as int,
                )[n]
                &&& r@[n].candidates@ == seq![num]
            },
{
    let mut r: Vec<CauseCell> = Vec::new();
    let mut i: usize = 0;
    while i < lines.len()
        invariant
            board.wf(),
            1 <= num <= 9,
            forall|j: int| 0 <= j < lines@.len() ==> (#[trigger] lines@[j]) < 9,
            i <= lines@.len(),
            r@.len() == fish_cause_cells(*board, num, lines@, is_row, um, i as int).len(),
            forall|n: int|
                0 <= n < r@.len() ==> {
                    &&& (#[trigger] r@[n]).index == fish_cause_cells(
                        *board,
                        num,
                        lines@,
                        is_row,
                        um,
                        i as int,
                    )[n]
                    &&& r@[n].candidates@ == seq![num]
                },
        decreases lines@.len() - i,
    {
        let l = lines[i];
        let ghost done = fish_cause_cells(*board, num, lines@, is_row, um, i as int);
        let mut p: usize = 0;
        while p < 9
            invariant
                board.wf(),
                1 <= num <= 9,
                l < 9,
                i < lines@.len(),
                l == lines@[i as int],
                p <= 9,
                done == fish_cause_cells(*board, num, lines@, is_row, um, i as int),
                r@.len() == done.len() + fish_cause_line_upto(
                    *board,
                    num,
                    l as int,
                    is_row,
                    um,
                    p as int,
                ).len(),
                forall|n: int|
                    0 <= n < r@.len() ==> {
                        &&& (#[trigger] r@[n]).index == (done + fish_cause_line_upto(
                            *board,
                            num,
                            l as int,
                            is_row,
                            um,
                            p as int,
                        ))[n]
                        &&& r@[n].candidates@ == seq![num]
                    },
            decreases 9 - p,
        {
            if mask_has_bit(um, p) {
                let idx = if is_row {
                    l * 9 + p
                } else {
                    p * 9 + l
                };
                if board.cells[idx] == 0 && mask_has(board.candidates[idx], num) {
                    let mut cc: Vec<u8> = Vec::new();
                    cc.push(num);
                    assert(cc@ =~= seq![num]);
                    r.push(CauseCell { index: idx, candidates: cc });
                }
            }
            p = p + 1;
        }
        proof {
            assert(fish_cause_cells(*board, num, lines@, is_row, um, i as int + 1) == done
                + fish_cause_line_upto(*board, num, l as int, is_row, um, 9));
        }
        i = i + 1;
    }
    r
}

/// A base-line cell in a covering position makes the cause list non-empty.
proof fn lemma_fish_cause_nonempty(
    b: LogicalBoard,
    d: u8,
    ls: Seq<usize>,
    rb: bool,
    um: u16,
    p: int,
)
    requires
        ls.len() > 0,
        mask_bit(um, p),
        b.has_cand(fish_cell(ls[0] as int, p, rb), d as int),
    ensures
        fish_cause_cells(b, d, ls, rb, um, ls.len() as int).len() > 0,
{
    lemma_fish_cause_line_some(b, d, ls[0] as int, rb, um, p, 9);
    lemma_fish_cause_prefix(b, d, ls, rb, um, 1, ls.len() as int);
}

/// The cause cells of one line include every qualifying position below `np`.
proof fn lemma_fish_cause_line_some(
    b: LogicalBoard,
    d: u8,
    l: int,
    rb: bool,
    um: u16,
    p: int,
    np: int,
)
    requires
        0 <= p < np,
        mask_bit(um, p),
        b.has_cand(fish_cell(l, p, rb), d as int),
    ensures
        fish_cause_line_upto(b, d, l, rb, um, np).len() > 0,
    decreases np,
{
    if p < np - 1 {
        lemma_fish_cause_line_some(b, d, l, rb, um, p, np - 1);
    }
}

/// The cause list only grows as more base lines are scanned.
proof fn lemma_fish_cause_prefix(
    b: LogicalBoard,
    d: u8,
    ls: Seq<usize>,
    rb: bool,
    um: u16,
    n1: int,
    n2: int,
)
    requires
        0 <= n1 <= n2,
    ensures
        fish_cause_cells(b, d, ls, rb, um, n1).len() <= fish_cause_cells(b, d, ls, rb, um, n2).len(),
    decreases n2 - n1,
{
    if n1 < n2 {
        lemma_fish_cause_prefix(b, d, ls, rb, um, n1, n2 - 1);
    }
}

/// Builds the fish step for validated base lines, or reports none when the
/// fish eliminates nothing.
fn construct_fish_step(
    board: &LogicalBoard,
    num: u8,
    lines: &Vec<usize>,
    um: u16,
    is_row: bool,
    technique: &str,
) -> (r: Option<SolvingStep>)
    requires
        board.wf(),
        1 <= num <= 9,
        forall|i: int| 0 <= i < lines@.len() ==> (#[trigger] lines@[i]) < 9,
        um == fish_union(*board, num, lines@, is_row),
        lines@.len() > 0,
        2 <= count_bits(spec_line_mask(*board, num, lines@[0] as int, is_row)),
    ensures
        (r is Some) <==> fish_elims(*board, num, lines@, is_row, um).len() > 0,
        r matches Some(s) ==> fish_step_at(*board, num, is_row, lines@, technique@, s),
        r matches Some(s) ==> step_sound(*board, s),
{
    let eliminations = collect_fish_eliminations(board, num, lines, um, is_row);
    if eliminations.len() == 0 {
        return None;
    }
    let cause = collect_fish_causes(board, num, lines, um, is_row);
    proof {
        lemma_fish_elims_valid(*board, num, lines@, is_row, um, 9);
        let l0 = lines@[0] as int;
        let m0 = spec_line_mask(*board, num, l0, is_row);
        lemma_line_mask_bits(*board, num, l0, is_row, 9);
        assert(count_bits(m0) >= 1);
        crate::masks::lemma_nonzero_has_bit(m0);
        if m0 == 0 {
            crate::masks::lemma_count_upto_none(m0, 9);
        }
        let p0 = choose|p0: int| mask_bit(m0, p0);
        assert(fish_pos(*board, num as int, l0, p0, is_row));
        lemma_fish_union_covers(*board, num, lines@, is_row, 0);
        assert(mask_bit(um, p0));
        lemma_fish_cause_nonempty(*board, num, lines@, is_row, um, p0);
    }
    let s = SolvingStep {
        technique: technique.to_owned(),
        placements: Vec::new(),
        eliminations,
        cause,
    };
    Some(s)
}

/// Every bit of a base line's mask is a bit of the union mask.
proof fn lemma_fish_union_covers(b: LogicalBoard, d: u8, ls: Seq<usize>, rb: bool, i: int)
    requires
        0 <= i < ls.len(),
    ensures
        forall|p: int|
            mask_bit(spec_line_mask(b, d, ls[i] as int, rb), p) ==> #[trigger] mask_bit(
                fish_union(b, d, ls, rb),
                p,
            ),
    decreases ls.len(),
{
    let um = fish_union(b, d, ls, rb);
    let last = spec_line_mask(b, d, ls.last() as int, rb);
    lemma_mask_or(fish_union(b, d, ls.drop_last(), rb), last);
    if i < ls.len() - 1 {
        lemma_fish_union_covers(b, d, ls.drop_last(), rb, i);
        assert(ls.drop_last()[i] == ls[i]);
    }
}


/// Unions of explicit small line lists, written out.
proof fn lemma_fish_union_small(b: LogicalBoard, d: u8, rb: bool, l1: usize, l2: usize, l3: usize, l4: usize)
    ensures
        fish_union(b, d, seq![l1, l2], rb) == spec_line_mask(b, d, l1 as int, rb) | spec_line_mask(
            b,
            d,
            l2 as int,
            rb,
        ),
        fish_union(b, d, seq![l1, l2, l3], rb) == spec_line_mask(b, d, l1 as int, rb)
            | spec_line_mask(b, d, l2 as int, rb) | spec_line_mask(b, d, l3 as int, rb),
        fish_union(b, d, seq![l1, l2, l3, l4], rb) == spec_line_mask(b, d, l1 as int, rb)
            | spec_line_mask(b, d, l2 as int, rb) | spec_line_mask(b, d, l3 as int, rb)
            | spec_line_mask(b, d, l4 as int, rb),
{
    let m1 = spec_line_mask(b, d, l1 as int, rb);
    assert(0u16 | m1 == m1) by (bit_vector);
    assert(seq![l1].drop_last() =~= Seq::<usize>::empty());
    assert(seq![l1, l2].drop_last() =~= seq![l1]);
    assert(seq![l1, l2, l3].drop_last() =~= seq![l1, l2]);
    assert(seq![l1, l2, l3, l4].drop_last() =~= seq![l1, l2, l3]);
    assert(fish_union(b, d, Seq::<usize>::empty(), rb) == 0u16);
    assert(seq![l1].last() == l1);
    assert(fish_union(b, d, seq![l1], rb) == 0u16 | m1);
    assert(seq![l1, l2].last() == l2);
    assert(fish_union(b, d, seq![l1, l2], rb) == fish_union(b, d, seq![l1], rb)
        | spec_line_mask(b, d, l2 as int, rb));
    assert(seq![l1, l2, l3].last() == l3);
    assert(fish_union(b, d, seq![l1, l2, l3], rb) == fish_union(b, d, seq![l1, l2], rb)
        | spec_line_mask(b, d, l3 as int, rb));
    assert(seq![l1, l2, l3, l4].last() == l4);
    assert(fish_union(b, d, seq![l1, l2, l3, l4], rb) == fish_union(b, d, seq![l1, l2, l3], rb)
        | spec_line_mask(b, d, l4 as int, rb));
}

/// Tries one validated base-line combination: checks the union-span bound
/// and builds the step when the fish eliminates something.
fn try_fish_combo(
    board: &LogicalBoard,
    num: u8,
    lines: &Vec<usize>,
    um: u16,
    size: usize,
    is_row: bool,
    technique: &str,
) -> (r: Option<SolvingStep>)
    requires
        board.wf(),
        1 <= num <= 9,
        2 <= size <= 4,
        lines@.len() == size,
        forall|i: int| 0 <= i < lines@.len() ==> (#[trigger] lines@[i]) < 9,
        forall|i: int, j: int| 0 <= i < j < lines@.len() ==> lines@[i] < lines@[j],
        forall|i: int|
            0 <= i < lines@.len() ==> 2 <= count_bits(
                spec_line_mask(*board, num, #[trigger] lines@[i] as int, is_row),
            ) <= size,
        um == fish_union(*board, num, lines@, is_row),
    ensures
        (r is Some) <==> (count_bits(um) <= size && fish_elims(
            *board,
            num,
            lines@,
            is_row,
            um,
        ).len() > 0),
        (r is Some) ==> fish_at(*board, num as int, size as int, is_row, lines@),
        r matches Some(s) ==> fish_step_at(*board, num, is_row, lines@, technique@, s),
        r matches Some(s) ==> step_sound(*board, s),
{
    if mask_count(um) > size {
        return None;
    }
    let r = construct_fish_step(board, num, lines, um, is_row, technique);
    proof {
        if r is Some {
            assert(fish_at(*board, num as int, size as int, is_row, lines@));
        }
    }
    r
}

/// Searches for a fish of size two on one digit and orientation: pairs of
/// base lines in ascending order.
fn check_fish_2(board: &LogicalBoard, num: u8, is_row: bool, technique: &str) -> (r: Option<
    SolvingStep,
>)
    requires
        board.wf(),
        1 <= num <= 9,
    ensures
        (r is Some) <==> (exists|l1: usize, l2: usize| fish2_at(*board, num as int, is_row, l1, l2)),
        r matches Some(s) ==> exists|ls: Seq<usize>|
            {
                &&& #[trigger] fish_at(*board, num as int, 2, is_row, ls)
                &&& fish_step_at(*board, num, is_row, ls, technique@, s)
            },
        r matches Some(s) ==> first_fish_2(*board, num as int, is_row, technique@, s),
        r matches Some(s) ==> step_sound(*board, s),
{
    let mut l1: usize = 0;
    while l1 < 9
        invariant
            board.wf(),
            1 <= num <= 9,
            l1 <= 9,
            forall|a: usize, b: usize| a < l1 ==> !fish2_at(*board, num as int, is_row, a, b),
        decreases 9 - l1,
    {
        let m1 = line_mask(board, num, l1, is_row);
        let c1 = mask_count(m1);
        if 2 <= c1 && c1 <= 2 {
            let mut l2: usize = l1 + 1;
            while l2 < 9
                invariant
                    board.wf(),
                    1 <= num <= 9,
                    l1 < l2 <= 9,
                    m1 == spec_line_mask(*board, num, l1 as int, is_row),
                    2 <= count_bits(m1) <= 2,
                    forall|a: usize, b: usize|
                        a < l1 ==> !fish2_at(*board, num as int, is_row, a, b),
                    forall|b: usize| l1 < b < l2 ==> !fish2_at(*board, num as int, is_row, l1, b),
                decreases 9 - l2,
            {
                let m2 = line_mask(board, num, l2, is_row);
                let c2 = mask_count(m2);
                if 2 <= c2 && c2 <= 2 {
                    let mut lines: Vec<usize> = Vec::new();
                    lines.push(l1);
                    lines.push(l2);
                    assert(lines@ =~= seq![l1, l2]);
                    proof {
                        lemma_fish_union_small(*board, num, is_row, l1, l2, 0, 0);
                    }
                    let um = m1 | m2;
                    if let Some(s) = try_fish_combo(board, num, &lines, um, 2, is_row, technique) {
                        proof {
                            assert(fish2_at(*board, num as int, is_row, l1, l2));
                            assert forall|a: usize, e: usize|
                                a < l1 || (a == l1 && e < l2) implies !fish2_at(
                                *board,
                                num as int,
                                is_row,
                                a,
                                e,
                            ) by {}
                            assert(first_fish_2(*board, num as int, is_row, technique@, s));
                        }
                        return Some(s);
                    }
                    proof {
                        assert(!fish2_at(*board, num as int, is_row, l1, l2));
                    }
                } else {
                    proof {
                        assert(!fish2_at(*board, num as int, is_row, l1, l2)) by {
                            if fish2_at(*board, num as int, is_row, l1, l2) {
                                assert(seq![l1, l2][1] == l2);
                            }
                        }
                    }
                }
                l2 = l2 + 1;
            }
            proof {
                assert forall|b: usize| !fish2_at(*board, num as int, is_row, l1, b) by {
                    if fish2_at(*board, num as int, is_row, l1, b) {
                        assert(seq![l1, b][0] == l1 && seq![l1, b][1] == b);
                    }
                }
            }
        } else {
            proof {
                assert forall|b: usize| !fish2_at(*board, num as int, is_row, l1, b) by {
                    if fish2_at(*board, num as int, is_row, l1, b) {
                        assert(seq![l1, b][0] == l1);
                    }
                }
            }
        }
        l1 = l1 + 1;
    }
    proof {
        assert forall|a: usize, b: usize| !fish2_at(*board, num as int, is_row, a, b) by {
            if fish2_at(*board, num as int, is_row, a, b) {
                assert(seq![a, b][0] == a);
            }
        }
    }
    None
}


/// Searches for a fish of size three on one digit and orientation: triples
/// of base lines in ascending order.
fn check_fish_3(board: &LogicalBoard, num: u8, is_row: bool, technique: &str) -> (r: Option<
    SolvingStep,
>)
    requires
        board.wf(),
        1 <= num <= 9,
    ensures
        (r is Some) <==> (exists|l1: usize, l2: usize, l3: usize|
            fish3_at(*board, num as int, is_row, l1, l2, l3)),
        r matches Some(s) ==> exists|ls: Seq<usize>|
            {
                &&& #[trigger] fish_at(*board, num as int, 3, is_row, ls)
                &&& fish_step_at(*board, num, is_row, ls, technique@, s)
            },
        r matches Some(s) ==> first_fish_3(*board, num as int, is_row, technique@, s),
        r matches Some(s) ==> step_sound(*board, s),
{
    let mut l1: usize = 0;
    while l1 < 9
        invariant
            board.wf(),
            1 <= num <= 9,
            l1 <= 9,
            forall|a: usize, b: usize, c: usize|
                a < l1 ==> !fish3_at(*board, num as int, is_row, a, b, c),
        decreases 9 - l1,
    {
        let m1 = line_mask(board, num, l1, is_row);
        let c1 = mask_count(m1);
        if 2 <= c1 && c1 <= 3 {
            let mut l2: usize = l1 + 1;
            while l2 < 9
                invariant
                    board.wf(),
                    1 <= num <= 9,
                    l1 < l2 <= 9,
                    m1 == spec_line_mask(*board, num, l1 as int, is_row),
                    2 <= count_bits(m1) <= 3,
                    forall|a: usize, b: usize, c: usize|
                        a < l1 ==> !fish3_at(*board, num as int, is_row, a, b, c),
                    forall|b: usize, c: usize|
                        l1 < b < l2 ==> !fish3_at(*board, num as int, is_row, l1, b, c),
                decreases 9 - l2,
            {
                let m2 = line_mask(board, num, l2, is_row);
                let c2 = mask_count(m2);
                if 2 <= c2 && c2 <= 3 {
                    let mut l3: usize = l2 + 1;
                    while l3 < 9
                        invariant
                            board.wf(),
                            1 <= num <= 9,
                            l1 < l2 < l3 <= 9,
                            m1 == spec_line_mask(*board, num, l1 as int, is_row),
                            2 <= count_bits(m1) <= 3,
                            m2 == spec_line_mask(*board, num, l2 as int, is_row),
                            2 <= count_bits(m2) <= 3,
                            forall|a: usize, b: usize, c: usize|
                                a < l1 ==> !fish3_at(*board, num as int, is_row, a, b, c),
                            forall|b: usize, c: usize|
                                l1 < b < l2 ==> !fish3_at(*board, num as int, is_row, l1, b, c),
                            forall|c: usize|
                                l2 < c < l3 ==> !fish3_at(*board, num as int, is_row, l1, l2, c),
                        decreases 9 - l3,
                    {
                        let m3 = line_mask(board, num, l3, is_row);
                        let c3 = mask_count(m3);
                        if 2 <= c3 && c3 <= 3 {
                            let mut lines: Vec<usize> = Vec::new();
                            lines.push(l1);
                            lines.push(l2);
                            lines.push(l3);
                            assert(lines@ =~= seq![l1, l2, l3]);
                            proof {
                                lemma_fish_union_small(*board, num, is_row, l1, l2, l3, 0);
                            }
                            let um = m1 | m2 | m3;
                            if let Some(s) = try_fish_combo(
                                board,
                                num,
                                &lines,
                                um,
                                3,
                                is_row,
                                technique,
                            ) {
                                proof {
                                    assert(fish3_at(*board, num as int, is_row, l1, l2, l3));
                                    assert forall|a: usize, e: usize, f: usize|
                                        a < l1 || (a == l1 && (e < l2 || (e == l2 && f
                                            < l3))) implies !fish3_at(
                                        *board,
                                        num as int,
                                        is_row,
                                        a,
                                        e,
                                        f,
                                    ) by {}
                                    assert(first_fish_3(
                                        *board,
                                        num as int,
                                        is_row,
                                        technique@,
                                        s,
                                    ));
                                }
                                return Some(s);
                            }
                            proof {
                                assert(!fish3_at(*board, num as int, is_row, l1, l2, l3));
                            }
                        } else {
                            proof {
                                assert(!fish3_at(*board, num as int, is_row, l1, l2, l3)) by {
                                    if fish3_at(*board, num as int, is_row, l1, l2, l3) {
                                        assert(seq![l1, l2, l3][2] == l3);
                                    }
                                }
                            }
                        }
                        l3 = l3 + 1;
                    }
                }
                proof {
                    assert forall|c: usize| !fish3_at(*board, num as int, is_row, l1, l2, c) by {
                        if fish3_at(*board, num as int, is_row, l1, l2, c) {
                            assert(seq![l1, l2, c][1] == l2);
                            assert(seq![l1, l2, c][2] == c);
                        }
                    }
                }
                l2 = l2 + 1;
            }
        }
        proof {
            assert forall|b: usize, c: usize|
                !fish3_at(*board, num as int, is_row, l1, b, c) by {
                if fish3_at(*board, num as int, is_row, l1, b, c) {
                    assert(seq![l1, b, c][0] == l1);
                    assert(seq![l1, b, c][1] == b);
                }
            }
        }
        l1 = l1 + 1;
    }
    proof {
        assert forall|a: usize, b: usize, c: usize|
            !fish3_at(*board, num as int, is_row, a, b, c) by {
            if fish3_at(*board, num as int, is_row, a, b, c) {
                assert(seq![a, b, c][0] == a);
            }
        }
    }
    None
}

/// Searches for a fish of size four on one digit and orientation: quadruples
/// of base lines in ascending order.
fn check_fish_4(board: &LogicalBoard, num: u8, is_row: bool, technique: &str) -> (r: Option<
    SolvingStep,
>)
    requires
        board.wf(),
        1 <= num <= 9,
    ensures
        (r is Some) <==> (exists|l1: usize, l2: usize, l3: usize, l4: usize|
            fish4_at(*board, num as int, is_row, l1, l2, l3, l4)),
        r matches Some(s) ==> exists|ls: Seq<usize>|
            {
                &&& #[trigger] fish_at(*board, num as int, 4, is_row, ls)
                &&& fish_step_at(*board, num, is_row, ls, technique@, s)
            },
        r matches Some(s) ==> first_fish_4(*board, num as int, is_row, technique@, s),
        r matches Some(s) ==> step_sound(*board, s),
{
    let mut l1: usize = 0;
    while l1 < 9
        invariant
            board.wf(),
            1 <= num <= 9,
            l1 <= 9,
            forall|a: usize, b: usize, c: usize, e: usize|
                a < l1 ==> !fish4_at(*board, num as int, is_row, a, b, c, e),
        decreases 9 - l1,
    {
        let m1 = line_mask(board, num, l1, is_row);
        let c1 = mask_count(m1);
        if 2 <= c1 && c1 <= 4 {
            let mut l2: usize = l1 + 1;
            while l2 < 9
                invariant
                    board.wf(),
                    1 <= num <= 9,
                    l1 < l2 <= 9,
                    m1 == spec_line_mask(*board, num, l1 as int, is_row),
                    2 <= count_bits(m1) <= 4,
                    forall|a: usize, b: usize, c: usize, e: usize|
                        a < l1 ==> !fish4_at(*board, num as int, is_row, a, b, c, e),
                    forall|b: usize, c: usize, e: usize|
                        l1 < b < l2 ==> !fish4_at(*board, num as int, is_row, l1, b, c, e),
                decreases 9 - l2,
            {
                let m2 = line_mask(board, num, l2, is_row);
                let c2 = mask_count(m2);
                if 2 <= c2 && c2 <= 4 {
                    let mut l3: usize = l2 + 1;
                    while l3 < 9
                        invariant
                            board.wf(),
                            1 <= num <= 9,
                            l1 < l2 < l3 <= 9,
                            m1 == spec_line_mask(*board, num, l1 as int, is_row),
                            2 <= count_bits(m1) <= 4,
                            m2 == spec_line_mask(*board, num, l2 as int, is_row),
                            2 <= count_bits(m2) <= 4,
                            forall|a: usize, b: usize, c: usize, e: usize|
                                a < l1 ==> !fish4_at(*board, num as int, is_row, a, b, c, e),
                            forall|b: usize, c: usize, e: usize|
                                l1 < b < l2 ==> !fish4_at(*board, num as int, is_row, l1, b, c, e),
                            forall|c: usize, e: usize|
                                l2 < c < l3 ==> !fish4_at(
                                    *board,
                                    num as int,
                                    is_row,
                                    l1,
                                    l2,
                                    c,
                                    e,
                                ),
                        decreases 9 - l3,
                    {
                        let m3 = line_mask(board, num, l3, is_row);
                        let c3 = mask_count(m3);
                        if 2 <= c3 && c3 <= 4 {
                            let mut l4: usize = l3 + 1;
                            while l4 < 9
                                invariant
                                    board.wf(),
                                    1 <= num <= 9,
                                    l1 < l2 < l3 < l4 <= 9,
                                    m1 == spec_line_mask(*board, num, l1 as int, is_row),
                                    2 <= count_bits(m1) <= 4,
                                    m2 == spec_line_mask(*board, num, l2 as int, is_row),
                                    2 <= count_bits(m2) <= 4,
                                    m3 == spec_line_mask(*board, num, l3 as int, is_row),
                                    2 <= count_bits(m3) <= 4,
                                    forall|a: usize, b: usize, c: usize, e: usize|
                                        a < l1 ==> !fish4_at(
                                            *board,
                                            num as int,
                                            is_row,
                                            a,
                                            b,
                                            c,
                                            e,
                                        ),
                                    forall|b: usize, c: usize, e: usize|
                                        l1 < b < l2 ==> !fish4_at(
                                            *board,
                                            num as int,
                                            is_row,
                                            l1,
                                            b,
                                            c,
                                            e,
                                        ),
                                    forall|c: usize, e: usize|
                                        l2 < c < l3 ==> !fish4_at(
                                            *board,
                                            num as int,
                                            is_row,
                                            l1,
                                            l2,
                                            c,
                                            e,
                                        ),
                                    forall|e: usize|
                                        l3 < e < l4 ==> !fish4_at(
                                            *board,
                                            num as int,
                                            is_row,
                                            l1,
                                            l2,
                                            l3,
                                            e,
                                        ),
                                decreases 9 - l4,
                            {
                                let m4 = line_mask(board, num, l4, is_row);
                                let c4 = mask_count(m4);
                                if 2 <= c4 && c4 <= 4 {
                                    let mut lines: Vec<usize> = Vec::new();
                                    lines.push(l1);
                                    lines.push(l2);
                                    lines.push(l3);
                                    lines.push(l4);
                                    assert(lines@ =~= seq![l1, l2, l3, l4]);
                                    proof {
                                        lemma_fish_union_small(
                                            *board,
                                            num,
                                            is_row,
                                            l1,
                                            l2,
                                            l3,
                                            l4,
                                        );
                                    }
                                    let um = m1 | m2 | m3 | m4;
                                    if let Some(s) = try_fish_combo(
                                        board,
                                        num,
                                        &lines,
                                        um,
                                        4,
                                        is_row,
                                        technique,
                                    ) {
                                        proof {
                                            assert(fish4_at(
                                                *board,
                                                num as int,
                                                is_row,
                                                l1,
                                                l2,
                                                l3,
                                                l4,
                                            ));
                                            assert forall|a: usize, e: usize, f: usize, g: usize|
                                                a < l1 || (a == l1 && (e < l2 || (e == l2 && (f
                                                    < l3 || (f == l3 && g
                                                    < l4))))) implies !fish4_at(
                                                *board,
                                                num as int,
                                                is_row,
                                                a,
                                                e,
                                                f,
                                                g,
                                            ) by {}
                                            assert(first_fish_4(
                                                *board,
                                                num as int,
                                                is_row,
                                                technique@,
                                                s,
                                            ));
                                        }
                                        return Some(s);
                                    }
                                    proof {
                                        assert(!fish4_at(
                                            *board,
                                            num as int,
                                            is_row,
                                            l1,
                                            l2,
                                            l3,
                                            l4,
                                        ));
                                    }
                                } else {
                                    proof {
                                        assert(!fish4_at(
                                            *board,
                                            num as int,
                                            is_row,
                                            l1,
                                            l2,
                                            l3,
                                            l4,
                                        )) by {
                                            if fish4_at(
                                                *board,
                                                num as int,
                                                is_row,
                                                l1,
                                                l2,
                                                l3,
                                                l4,
                                            ) {
                                                assert(seq![l1, l2, l3, l4][3] == l4);
                                            }
                                        }
                                    }
                                }
                                l4 = l4 + 1;
                            }
                        }
                        proof {
                            assert forall|e: usize|
                                !fish4_at(*board, num as int, is_row, l1, l2, l3, e) by {
                                if fish4_at(*board, num as int, is_row, l1, l2, l3, e) {
                                    assert(seq![l1, l2, l3, e][2] == l3);
                                    assert(seq![l1, l2, l3, e][3] == e);
                                }
                            }
                        }
                        l3 = l3 + 1;
                    }
                }
                proof {
                    assert forall|c: usize, e: usize|
                        !fish4_at(*board, num as int, is_row, l1, l2, c, e) by {
                        if fish4_at(*board, num as int, is_row, l1, l2, c, e) {
                            assert(seq![l1, l2, c, e][1] == l2);
                            assert(seq![l1, l2, c, e][2] == c);
                        }
                    }
                }
                l2 = l2 + 1;
            }
        }
        proof {
            assert forall|b: usize, c: usize, e: usize|
                !fish4_at(*board, num as int, is_row, l1, b, c, e) by {
                if fish4_at(*board, num as int, is_row, l1, b, c, e) {
                    assert(seq![l1, b, c, e][0] == l1);
                    assert(seq![l1, b, c, e][1] == b);
                }
            }
        }
        l1 = l1 + 1;
    }
    proof {
        assert forall|a: usize, b: usize, c: usize, e: usize|
            !fish4_at(*board, num as int, is_row, a, b, c, e) by {
            if fish4_at(*board, num as int, is_row, a, b, c, e) {
                assert(seq![a, b, c, e][0] == a);
            }
        }
    }
    None
}

/// Whether any fish of size two to four exists for digit `d`.
pub open spec fn fish_exists_for_digit(b: LogicalBoard, d: int) -> bool {
    ||| (exists|rb: bool, l1: usize, l2: usize| fish2_at(b, d, rb, l1, l2))
    ||| (exists|rb: bool, l1: usize, l2: usize, l3: usize| fish3_at(b, d, rb, l1, l2, l3))
    ||| (exists|rb: bool, l1: usize, l2: usize, l3: usize, l4: usize|
        fish4_at(b, d, rb, l1, l2, l3, l4))
}

/// Searches for fish patterns: digits ascending; for each digit sizes two,
/// three, four in turn, each with rows as base lines before columns.
pub fn find_fish_techniques(board: &LogicalBoard) -> (r: Option<SolvingStep>)
    requires
        board.wf(),
    ensures
        (r is Some) <==> (exists|d: int| fish_exists_for_digit(*board, d)),
        r matches Some(s) ==> some_fish_step(*board, s),
        r matches Some(s) ==> step_sound(*board, s),
{
    let mut num: u8 = 1;
    while num <= 9
        invariant
            board.wf(),
            1 <= num <= 10,
            forall|d: int| 1 <= d < num ==> !fish_exists_for_digit(*board, d),
        decreases 10 - num,
    {
        if let Some(s) = check_fish_2(board, num, true, "X-Wing") {
            proof {
                let ls = choose|ls: Seq<usize>|
                    #[trigger] fish_at(*board, num as int, 2, true, ls) && fish_step_at(
                        *board,
                        num,
                        true,
                        ls,
                        "X-Wing"@,
                        s,
                    );
                lemma_fish_exists_forms(*board, num as int, 2, true, ls);
                assert(fish_step_at(*board, num, true, ls, fish_name(2), s));
                assert forall|size2: int, rb2: bool, ls2: Seq<usize>|
                    2 <= size2 < 2 implies !fish_at(*board, num as int, size2, rb2, ls2) by {}
                assert(some_fish_step(*board, s));
                assert(fish_exists_for_digit(*board, num as int));
            }
            return Some(s);
        }
        if let Some(s) = check_fish_2(board, num, false, "X-Wing") {
            proof {
                let ls = choose|ls: Seq<usize>|
                    #[trigger] fish_at(*board, num as int, 2, false, ls) && fish_step_at(
                        *board,
                        num,
                        false,
                        ls,
                        "X-Wing"@,
                        s,
                    );
                lemma_fish_exists_forms(*board, num as int, 2, false, ls);
                assert(fish_step_at(*board, num, false, ls, fish_name(2), s));
                assert forall|size2: int, rb2: bool, ls2: Seq<usize>|
                    2 <= size2 < 2 implies !fish_at(*board, num as int, size2, rb2, ls2) by {}
                assert forall|ls2: Seq<usize>|
                    !fish_at(*board, num as int, 2, true, ls2) by {
                    if fish_at(*board, num as int, 2, true, ls2) {
                        lemma_fish_exists_forms(*board, num as int, 2, true, ls2);
                    }
                }
                assert(some_fish_step(*board, s));
                assert(fish_exists_for_digit(*board, num as int));
            }
            return Some(s);
        }
        if let Some(s) = check_fish_3(board, num, true, "Swordfish") {
            proof {
                let ls = choose|ls: Seq<usize>|
                    #[trigger] fish_at(*board, num as int, 3, true, ls) && fish_step_at(
                        *board,
                        num,
                        true,
                        ls,
                        "Swordfish"@,
                        s,
                    );
                lemma_fish_exists_forms(*board, num as int, 3, true, ls);
                assert(fish_step_at(*board, num, true, ls, fish_name(3), s));
                assert forall|size2: int, rb2: bool, ls2: Seq<usize>|
                    2 <= size2 < 3 implies !fish_at(*board, num as int, size2, rb2, ls2) by {
                    if fish_at(*board, num as int, size2, rb2, ls2) {
                        lemma_fish_exists_forms(*board, num as int, size2, rb2, ls2);
                    }
                }
                assert(some_fish_step(*board, s));
                assert(fish_exists_for_digit(*board, num as int));
            }
            return Some(s);
        }
        if let Some(s) = check_fish_3(board, num, false, "Swordfish") {
            proof {
                let ls = choose|ls: Seq<usize>|
                    #[trigger] fish_at(*board, num as int, 3, false, ls) && fish_step_at(
                        *board,
                        num,
                        false,
                        ls,
                        "Swordfish"@,
                        s,
                    );
                lemma_fish_exists_forms(*board, num as int, 3, false, ls);
                assert(fish_step_at(*board, num, false, ls, fish_name(3), s));
                assert forall|size2: int, rb2: bool, ls2: Seq<usize>|
                    2 <= size2 < 3 implies !fish_at(*board, num as int, size2, rb2, ls2) by {
                    if fish_at(*board, num as int, size2, rb2, ls2) {
                        lemma_fish_exists_forms(*board, num as int, size2, rb2, ls2);
                    }
                }
                assert forall|ls2: Seq<usize>|
                    !fish_at(*board, num as int, 3, true, ls2) by {
                    if fish_at(*board, num as int, 3, true, ls2) {
                        lemma_fish_exists_forms(*board, num as int, 3, true, ls2);
                    }
                }
                assert(some_fish_step(*board, s));
                assert(fish_exists_for_digit(*board, num as int));
            }
            return Some(s);
        }
        if let Some(s) = check_fish_4(board, num, true, "Jellyfish") {
            proof {
                let ls = choose|ls: Seq<usize>|
                    #[trigger] fish_at(*board, num as int, 4, true, ls) && fish_step_at(
                        *board,
                        num,
                        true,
                        ls,
                        "Jellyfish"@,
                        s,
                    );
                lemma_fish_exists_forms(*board, num as int, 4, true, ls);
                assert(fish_step_at(*board, num, true, ls, fish_name(4), s));
                assert forall|size2: int, rb2: bool, ls2: Seq<usize>|
                    2 <= size2 < 4 implies !fish_at(*board, num as int, size2, rb2, ls2) by {
                    if fish_at(*board, num as int, size2, rb2, ls2) {
                        lemma_fish_exists_forms(*board, num as int, size2, rb2, ls2);
                    }
                }
                assert(some_fish_step(*board, s));
                assert(fish_exists_for_digit(*board, num as int));
            }
            return Some(s);
        }
        if let Some(s) = check_fish_4(board, num, false, "Jellyfish") {
            proof {
                let ls = choose|ls: Seq<usize>|
                    #[trigger] fish_at(*board, num as int, 4, false, ls) && fish_step_at(
                        *board,
                        num,
                        false,
                        ls,
                        "Jellyfish"@,
                        s,
                    );
                lemma_fish_exists_forms(*board, num as int, 4, false, ls);
                assert(fish_step_at(*board, num, false, ls, fish_name(4), s));
                assert forall|size2: int, rb2: bool, ls2: Seq<usize>|
                    2 <= size2 < 4 implies !fish_at(*board, num as int, size2, rb2, ls2) by {
                    if fish_at(*board, num as int, size2, rb2, ls2) {
                        lemma_fish_exists_forms(*board, num as int, size2, rb2, ls2);
                    }
                }
                assert forall|ls2: Seq<usize>|
                    !fish_at(*board, num as int, 4, true, ls2) by {
                    if fish_at(*board, num as int, 4, true, ls2) {
                        lemma_fish_exists_forms(*board, num as int, 4, true, ls2);
                    }
                }
                assert(some_fish_step(*board, s));
                assert(fish_exists_for_digit(*board, num as int));
            }
            return Some(s);
        }
        proof {
            assert(!fish_exists_for_digit(*board, num as int));
        }
        num = num + 1;
    }
    proof {
        assert forall|d: int| !fish_exists_for_digit(*board, d) by {
            if 1 <= d <= 9 {
                assert(!fish_exists_for_digit(*board, d));
            } else {
                if fish_exists_for_digit(*board, d) {
                    fish_digit_in_range(*board, d);
                }
            }
        }
    }
    None
}

/// A fish only exists on digits one through nine.
proof fn fish_digit_in_range(b: LogicalBoard, d: int)
    requires
        fish_exists_for_digit(b, d),
    ensures
        1 <= d <= 9,
{
}


} // verus!

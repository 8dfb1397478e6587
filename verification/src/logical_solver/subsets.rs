//! Subset finders: naked/hidden pair and triple.
//!
//! A naked subset is a set of k cells of one unit whose candidate sets unite
//! to exactly k digits: those digits can leave every other cell of the unit.
//! A hidden subset is a set of k digits confined to exactly k cells of one
//! unit: every other candidate can leave those cells.

use vstd::prelude::*;

use crate::geometry::{unit_cell, unit_cell_at};
use crate::masks::{
    count_bits,
    count_bits_upto,
    mask_bit,
    digits_of,
    mask_has,
    mask_count,
    mask_to_vec,
    lemma_mask_and,
    lemma_mask_or,
    lemma_mask_ext,
    lemma_nonzero_has_bit,
};
use crate::types::{Elimination, CauseCell, SolvingStep};
use super::{
    LogicalBoard,
    step_sound,
    elimination_valid,
    cell_elims,
    cell_elims_upto,
    lemma_cell_elims_valid,
};

verus! {

/// The eliminations a naked subset produces: for every cell of unit `u`
/// outside the subset positions `ks` that is empty, the digits of its
/// candidate set that fall in the subset mask `m`, scanning positions below
/// `n` in order and digits in ascending order.
pub open spec fn naked_subset_elims_upto(
    b: LogicalBoard,
    u: int,
    ks: Seq<usize>,
    m: u16,
    n: int,
) -> Seq<Elimination>
    decreases n,
{
    if n <= 0 {
        Seq::empty()
    } else {
        naked_subset_elims_upto(b, u, ks, m, n - 1) + {
            let idx = unit_cell(u, n - 1);
            if !ks.contains((n - 1) as usize) && b.cells@[idx] == 0 {
                cell_elims(idx, b.candidates@[idx] & m)
            } else {
                Seq::empty()
            }
        }
    }
}

/// The eliminations a naked subset at positions `ks` of unit `u` with mask
/// `m` produces.
pub open spec fn naked_subset_elims(b: LogicalBoard, u: int, ks: Seq<usize>, m: u16) -> Seq<
    Elimination,
> {
    naked_subset_elims_upto(b, u, ks, m, 9)
}

/// The step a naked subset produces: no placement, the subset's eliminations,
/// and one cause cell per subset position carrying the subset's digits.
pub open spec fn naked_subset_step_at(
    b: LogicalBoard,
    u: int,
    ks: Seq<usize>,
    m: u16,
    tech: Seq<char>,
    s: SolvingStep,
) -> bool {
    &&& s.technique@ == tech
    &&& s.placements@.len() == 0
    &&& s.eliminations@ == naked_subset_elims(b, u, ks, m)
    &&& s.cause@.len() == ks.len()
    &&& (forall|n: int|
        0 <= n < ks.len() ==> {
            &&& (#[trigger] s.cause@[n]).index == unit_cell(u, ks[n] as int)
            &&& s.cause@[n].candidates@ == digits_of(m)
        })
}

/// Two cells of unit `u` with the same two-digit candidate set, and some
/// other cell of the unit still holding one of those digits.
pub open spec fn naked_pair_at(b: LogicalBoard, u: int, k1: int, k2: int) -> bool {
    &&& 0 <= u < 27
    &&& 0 <= k1 < k2 < 9
    &&& b.cells@[unit_cell(u, k1)] == 0
    &&& b.cells@[unit_cell(u, k2)] == 0
    &&& b.candidates@[unit_cell(u, k1)] == b.candidates@[unit_cell(u, k2)]
    &&& count_bits(b.candidates@[unit_cell(u, k1)]) == 2
    &&& naked_subset_elims(
        b,
        u,
        seq![k1 as usize, k2 as usize],
        b.candidates@[unit_cell(u, k1)],
    ).len() > 0
}

/// Three cells of unit `u`, each with two or three candidates, whose
/// candidate sets unite to exactly three digits, with something left to
/// eliminate elsewhere in the unit.
pub open spec fn naked_triple_at(b: LogicalBoard, u: int, k1: int, k2: int, k3: int) -> bool {
    &&& 0 <= u < 27
    &&& 0 <= k1 < k2 < k3 < 9
    &&& b.cells@[unit_cell(u, k1)] == 0
    &&& b.cells@[unit_cell(u, k2)] == 0
    &&& b.cells@[unit_cell(u, k3)] == 0
    &&& 2 <= count_bits(b.candidates@[unit_cell(u, k1)]) <= 3
    &&& 2 <= count_bits(b.candidates@[unit_cell(u, k2)]) <= 3
    &&& 2 <= count_bits(b.candidates@[unit_cell(u, k3)]) <= 3
    &&& count_bits(
        b.candidates@[unit_cell(u, k1)] | b.candidates@[unit_cell(u, k2)]
            | b.candidates@[unit_cell(u, k3)],
    ) == 3
    &&& naked_subset_elims(
        b,
        u,
        seq![k1 as usize, k2 as usize, k3 as usize],
        b.candidates@[unit_cell(u, k1)] | b.candidates@[unit_cell(u, k2)]
            | b.candidates@[unit_cell(u, k3)],
    ).len() > 0
}

/// Some naked pair produces this step, and it is the first match in scan
/// order: units ascending, then position pairs in ascending lexicographic
/// order.
pub open spec fn some_naked_pair_step(b: LogicalBoard, s: SolvingStep) -> bool {
    exists|u: int, k1: int, k2: int|
        #![trigger naked_pair_at(b, u, k1, k2)]
        {
            &&& naked_pair_at(b, u, k1, k2)
            &&& (forall|u2: int, a: int, c: int|
                u2 < u || (u2 == u && (a < k1 || (a == k1 && c < k2))) ==> !naked_pair_at(
                    b,
                    u2,
                    a,
                    c,
                ))
            &&& naked_subset_step_at(
                b,
                u,
                seq![k1 as usize, k2 as usize],
                b.candidates@[unit_cell(u, k1)],
                "NakedPair"@,
                s,
            )
        }
}

/// Some naked triple produces this step, and it is the first match in scan
/// order: units ascending, then position triples in ascending lexicographic
/// order.
pub open spec fn some_naked_triple_step(b: LogicalBoard, s: SolvingStep) -> bool {
    exists|u: int, k1: int, k2: int, k3: int|
        #![trigger naked_triple_at(b, u, k1, k2, k3)]
        {
            &&& naked_triple_at(b, u, k1, k2, k3)
            &&& (forall|u2: int, a: int, c: int, e: int|
                u2 < u || (u2 == u && (a < k1 || (a == k1 && (c < k2 || (c == k2 && e
                    < k3))))) ==> !naked_triple_at(b, u2, a, c, e))
            &&& naked_subset_step_at(
                b,
                u,
                seq![k1 as usize, k2 as usize, k3 as usize],
                b.candidates@[unit_cell(u, k1)] | b.candidates@[unit_cell(u, k2)]
                    | b.candidates@[unit_cell(u, k3)],
                "NakedTriple"@,
                s,
            )
        }
}

/// Every elimination of a naked subset is valid and eliminates a digit of
/// the subset mask from a cell outside the subset.
proof fn lemma_naked_subset_elims_valid(b: LogicalBoard, u: int, ks: Seq<usize>, m: u16, n: int)
    requires
        b.wf(),
        0 <= u < 27,
        n <= 9,
    ensures
        forall|j: int|
            0 <= j < naked_subset_elims_upto(b, u, ks, m, n).len() ==> elimination_valid(
                b,
                #[trigger] naked_subset_elims_upto(b, u, ks, m, n)[j],
            ),
    decreases n,
{
    if n > 0 {
        lemma_naked_subset_elims_valid(b, u, ks, m, n - 1);
        let s = naked_subset_elims_upto(b, u, ks, m, n);
        let rest = naked_subset_elims_upto(b, u, ks, m, n - 1);
        let idx = unit_cell(u, n - 1);
        crate::geometry::lemma_unit_cell_range(u, n - 1);
        assert forall|j: int| 0 <= j < s.len() implies elimination_valid(b, #[trigger] s[j]) by {
            if j < rest.len() {
                assert(s[j] == rest[j]);
            } else {
                lemma_mask_and(b.candidates@[idx], m);
                lemma_cell_elims_valid(b, idx, b.candidates@[idx] & m, 10);
                let tail = cell_elims(idx, b.candidates@[idx] & m);
                assert(s[j] == tail[j - rest.len()]);
            }
        }
    }
}

/// Checks whether membership of `x` in the small position list `v`.
fn vec_contains(v: &Vec<usize>, x: usize) -> (r: bool)
    ensures
        r == v@.contains(x),
{
    let mut i: usize = 0;
    while i < v.len()
        invariant
            i <= v@.len(),
            forall|j: int| 0 <= j < i ==> v@[j] != x,
        decreases v@.len() - i,
    {
        if v[i] == x {
            return true;
        }
        i = i + 1;
    }
    false
}

/// Copies a digit list.
fn clone_digits(v: &Vec<u8>) -> (r: Vec<u8>)
    ensures
        r@ == v@,
{
    let mut r: Vec<u8> = Vec::new();
    let mut i: usize = 0;
    while i < v.len()
        invariant
            i <= v@.len(),
            r@ == v@.take(i as int),
        decreases v@.len() - i,
    {
        r.push(v[i]);
        proof {
            assert(r@ =~= v@.take(i as int + 1));
        }
        i = i + 1;
    }
    proof {
        assert(r@ =~= v@);
    }
    r
}

/// Builds the step for a naked subset at the given unit positions, or
/// reports none when the subset eliminates nothing.
fn construct_naked_subset_step(
    board: &LogicalBoard,
    u: usize,
    positions: &Vec<usize>,
    mask: u16,
    technique: &str,
) -> (r: Option<SolvingStep>)
    requires
        board.wf(),
        u < 27,
        forall|n: int| 0 <= n < positions@.len() ==> positions@[n] < 9,
    ensures
        (r is Some) <==> naked_subset_elims(*board, u as int, positions@, mask).len() > 0,
        r matches Some(s) ==> naked_subset_step_at(
            *board,
            u as int,
            positions@,
            mask,
            technique@,
            s,
        ),
        r matches Some(s) ==> step_sound(*board, s),
{
    let cands = mask_to_vec(mask);
    let mut eliminations: Vec<Elimination> = Vec::new();
    let mut k: usize = 0;
    while k < 9
        invariant
            board.wf(),
            u < 27,
            k <= 9,
            eliminations@ == naked_subset_elims_upto(*board, u as int, positions@, mask, k as int),
        decreases 9 - k,
    {
        let idx = unit_cell_at(u, k);
        if !vec_contains(positions, k) && board.cells[idx] == 0 {
            let cm = board.candidates[idx] & mask;
            let ghost prefix = eliminations@;
            let mut d: u8 = 1;
            while d <= 9
                invariant
                    1 <= d <= 10,
                    idx < 81,
                    eliminations@ == prefix + cell_elims_upto(idx as int, cm, d as int),
                decreases 10 - d,
            {
                if mask_has(cm, d) {
                    eliminations.push(Elimination { index: idx, value: d });
                }
                d = d + 1;
            }
        }
        k = k + 1;
    }
    if eliminations.len() == 0 {
        return None;
    }
    let mut cause: Vec<CauseCell> = Vec::new();
    let mut n: usize = 0;
    while n < positions.len()
        invariant
            board.wf(),
            u < 27,
            n <= positions@.len(),
            forall|j: int| 0 <= j < positions@.len() ==> positions@[j] < 9,
            cands@ == digits_of(mask),
            cause@.len() == n,
            forall|j: int|
                0 <= j < n ==> {
                    &&& (#[trigger] cause@[j]).index == unit_cell(u as int, positions@[j] as int)
                    &&& cause@[j].candidates@ == digits_of(mask)
                },
        decreases positions@.len() - n,
    {
        let idx = unit_cell_at(u, positions[n]);
        let cc = clone_digits(&cands);
        cause.push(CauseCell { index: idx, candidates: cc });
        n = n + 1;
    }
    let s = SolvingStep {
        technique: technique.to_owned(),
        placements: Vec::new(),
        eliminations,
        cause,
    };
    proof {
        lemma_naked_subset_elims_valid(*board, u as int, positions@, mask, 9);
    }
    Some(s)
}

/// Searches every unit for a naked pair: two empty cells with an identical
/// two-digit candidate set whose digits still occur elsewhere in the unit.
/// Units are scanned in order, position pairs in ascending order.
pub fn find_naked_pair(board: &LogicalBoard) -> (r: Option<SolvingStep>)
    requires
        board.wf(),
    ensures
        (r is Some) <==> (exists|u: int, k1: int, k2: int| naked_pair_at(*board, u, k1, k2)),
        r matches Some(s) ==> some_naked_pair_step(*board, s),
        r matches Some(s) ==> step_sound(*board, s),
{
    let mut u: usize = 0;
    while u < 27
        invariant
            board.wf(),
            u <= 27,
            forall|u0: int, k1: int, k2: int| 0 <= u0 < u ==> !naked_pair_at(*board, u0, k1, k2),
        decreases 27 - u,
    {
        let mut k1: usize = 0;
        while k1 < 9
            invariant
                board.wf(),
                u < 27,
                k1 <= 9,
                forall|u0: int, a: int, b: int| 0 <= u0 < u ==> !naked_pair_at(*board, u0, a, b),
                forall|a: int, b: int| 0 <= a < k1 ==> !naked_pair_at(*board, u as int, a, b),
            decreases 9 - k1,
        {
            let c1 = unit_cell_at(u, k1);
            if board.cells[c1] == 0 && mask_count(board.candidates[c1]) == 2 {
                let mask = board.candidates[c1];
                let mut k2: usize = k1 + 1;
                while k2 < 9
                    invariant
                        board.wf(),
                        u < 27,
                        k1 < k2,
                        k2 <= 9,
                        c1 == unit_cell(u as int, k1 as int),
                        board.cells@[c1 as int] == 0,
                        mask == board.candidates@[c1 as int],
                        count_bits(mask) == 2,
                        forall|u0: int, a: int, b: int|
                            0 <= u0 < u ==> !naked_pair_at(*board, u0, a, b),
                        forall|a: int, b: int| 0 <= a < k1 ==> !naked_pair_at(*board, u as int, a, b),
                        forall|b: int| k1 < b < k2 ==> !naked_pair_at(*board, u as int, k1 as int, b),
                    decreases 9 - k2,
                {
                    let c2 = unit_cell_at(u, k2);
                    if board.cells[c2] == 0 && board.candidates[c2] == mask {
                        let mut positions: Vec<usize> = Vec::new();
                        positions.push(k1);
                        positions.push(k2);
                        assert(positions@ =~= seq![k1, k2]);
                        if let Some(s) = construct_naked_subset_step(
                            board,
                            u,
                            &positions,
                            mask,
                            "NakedPair",
                        ) {
                            proof {
                                assert(naked_pair_at(*board, u as int, k1 as int, k2 as int));
                                assert forall|u2: int, a: int, c: int|
                                    u2 < u as int || (u2 == u as int && (a < k1 as int || (a
                                        == k1 as int && c < k2 as int))) implies !naked_pair_at(
                                    *board,
                                    u2,
                                    a,
                                    c,
                                ) by {
                                    if naked_pair_at(*board, u2, a, c) {
                                        assert(0 <= u2 && 0 <= a < c < 9);
                                    }
                                }
                                assert(some_naked_pair_step(*board, s));
                            }
                            return Some(s);
                        }
                    }
                    k2 = k2 + 1;
                }
            }
            proof {
                assert forall|b: int| !naked_pair_at(*board, u as int, k1 as int, b) by {}
            }
            k1 = k1 + 1;
        }
        u = u + 1;
    }
    None
}

/// Searches every unit for a naked triple: three empty cells with two or
/// three candidates each whose candidate sets unite to exactly three digits
/// that still occur elsewhere in the unit.
pub fn find_naked_triple(board: &LogicalBoard) -> (r: Option<SolvingStep>)
    requires
        board.wf(),
    ensures
        (r is Some) <==> (exists|u: int, k1: int, k2: int, k3: int|
            naked_triple_at(*board, u, k1, k2, k3)),
        r matches Some(s) ==> some_naked_triple_step(*board, s),
        r matches Some(s) ==> step_sound(*board, s),
{
    let mut u: usize = 0;
    while u < 27
        invariant
            board.wf(),
            u <= 27,
            forall|u0: int, a: int, b: int, c: int|
                0 <= u0 < u ==> !naked_triple_at(*board, u0, a, b, c),
        decreases 27 - u,
    {
        let mut k1: usize = 0;
        while k1 < 9
            invariant
                board.wf(),
                u < 27,
                k1 <= 9,
                forall|u0: int, a: int, b: int, c: int|
                    0 <= u0 < u ==> !naked_triple_at(*board, u0, a, b, c),
                forall|a: int, b: int, c: int|
                    0 <= a < k1 ==> !naked_triple_at(*board, u as int, a, b, c),
            decreases 9 - k1,
        {
            let c1 = unit_cell_at(u, k1);
            let n1 = mask_count(board.candidates[c1]);
            if board.cells[c1] == 0 && 2 <= n1 && n1 <= 3 {
                let m1 = board.candidates[c1];
                let mut k2: usize = k1 + 1;
                while k2 < 9
                    invariant
                        board.wf(),
                        u < 27,
                        k1 < k2,
                        k2 <= 9,
                        c1 == unit_cell(u as int, k1 as int),
                        board.cells@[c1 as int] == 0,
                        m1 == board.candidates@[c1 as int],
                        2 <= count_bits(m1) <= 3,
                        forall|u0: int, a: int, b: int, c: int|
                            0 <= u0 < u ==> !naked_triple_at(*board, u0, a, b, c),
                        forall|a: int, b: int, c: int|
                            0 <= a < k1 ==> !naked_triple_at(*board, u as int, a, b, c),
                        forall|b: int, c: int|
                            k1 < b < k2 ==> !naked_triple_at(*board, u as int, k1 as int, b, c),
                    decreases 9 - k2,
                {
                    let c2 = unit_cell_at(u, k2);
                    let n2 = mask_count(board.candidates[c2]);
                    if board.cells[c2] == 0 && 2 <= n2 && n2 <= 3 {
                        let m2 = board.candidates[c2];
                        let mut k3: usize = k2 + 1;
                        while k3 < 9
                            invariant
                                board.wf(),
                                u < 27,
                                k1 < k2 < k3,
                                k3 <= 9,
                                c1 == unit_cell(u as int, k1 as int),
                                board.cells@[c1 as int] == 0,
                                m1 == board.candidates@[c1 as int],
                                2 <= count_bits(m1) <= 3,
                                c2 == unit_cell(u as int, k2 as int),
                                board.cells@[c2 as int] == 0,
                                m2 == board.candidates@[c2 as int],
                                2 <= count_bits(m2) <= 3,
                                forall|u0: int, a: int, b: int, c: int|
                                    0 <= u0 < u ==> !naked_triple_at(*board, u0, a, b, c),
                                forall|a: int, b: int, c: int|
                                    0 <= a < k1 ==> !naked_triple_at(*board, u as int, a, b, c),
                                forall|b: int, c: int|
                                    k1 < b < k2 ==> !naked_triple_at(
                                        *board,
                                        u as int,
                                        k1 as int,
                                        b,
                                        c,
                                    ),
                                forall|c: int|
                                    k2 < c < k3 ==> !naked_triple_at(
                                        *board,
                                        u as int,
                                        k1 as int,
                                        k2 as int,
                                        c,
                                    ),
                            decreases 9 - k3,
                        {
                            let c3 = unit_cell_at(u, k3);
                            let n3 = mask_count(board.candidates[c3]);
                            if board.cells[c3] == 0 && 2 <= n3 && n3 <= 3 {
                                let union_mask = m1 | m2 | board.candidates[c3];
                                if mask_count(union_mask) == 3 {
                                    let mut positions: Vec<usize> = Vec::new();
                                    positions.push(k1);
                                    positions.push(k2);
                                    positions.push(k3);
                                    assert(positions@ =~= seq![k1, k2, k3]);
                                    if let Some(s) = construct_naked_subset_step(
                                        board,
                                        u,
                                        &positions,
                                        union_mask,
                                        "NakedTriple",
                                    ) {
                                        proof {
                                            assert(naked_triple_at(
                                                *board,
                                                u as int,
                                                k1 as int,
                                                k2 as int,
                                                k3 as int,
                                            ));
                                            assert forall|u2: int, a: int, c: int, e: int|
                                                u2 < u as int || (u2 == u as int && (a
                                                    < k1 as int || (a == k1 as int && (c
                                                    < k2 as int || (c == k2 as int && e
                                                    < k3 as int))))) implies !naked_triple_at(
                                                *board,
                                                u2,
                                                a,
                                                c,
                                                e,
                                            ) by {
                                                if naked_triple_at(*board, u2, a, c, e) {
                                                    assert(0 <= u2 && 0 <= a < c < e < 9);
                                                }
                                            }
                                            assert(some_naked_triple_step(*board, s));
                                        }
                                        return Some(s);
                                    }
                                }
                            }
                            k3 = k3 + 1;
                        }
                    }
                    proof {
                        assert forall|c: int|
                            !naked_triple_at(*board, u as int, k1 as int, k2 as int, c) by {}
                    }
                    k2 = k2 + 1;
                }
            }
            proof {
                assert forall|b: int, c: int|
                    !naked_triple_at(*board, u as int, k1 as int, b, c) by {}
            }
            k1 = k1 + 1;
        }
        u = u + 1;
    }
    None
}

// --- Hidden Subsets ---

/// Number of cells among the first `n` of unit `u` that are empty and hold
/// at least one digit of the mask `dm` as a candidate.
pub open spec fn unit_any_count_upto(b: LogicalBoard, u: int, dm: u16, n: int) -> nat
    decreases n,
{
    if n <= 0 {
        0
    } else {
        unit_any_count_upto(b, u, dm, n - 1) + {
            let idx = unit_cell(u, n - 1);
            if b.cells@[idx] == 0 && (b.candidates@[idx] & dm) != 0 {
                1nat
            } else {
                0nat
            }
        }
    }
}

/// Number of cells of unit `u` holding at least one digit of `dm`.
pub open spec fn unit_any_count(b: LogicalBoard, u: int, dm: u16) -> nat {
    unit_any_count_upto(b, u, dm, 9)
}

/// The positions (ascending, below `n`) of unit `u` whose cells are empty
/// and hold at least one digit of `dm`.
pub open spec fn subset_positions_upto(b: LogicalBoard, u: int, dm: u16, n: int) -> Seq<int>
    decreases n,
{
    if n <= 0 {
        Seq::empty()
    } else {
        subset_positions_upto(b, u, dm, n - 1) + {
            let idx = unit_cell(u, n - 1);
            if b.cells@[idx] == 0 && (b.candidates@[idx] & dm) != 0 {
                seq![n - 1]
            } else {
                Seq::empty()
            }
        }
    }
}

/// The positions of unit `u` whose cells hold at least one digit of `dm`.
pub open spec fn subset_positions(b: LogicalBoard, u: int, dm: u16) -> Seq<int> {
    subset_positions_upto(b, u, dm, 9)
}

/// The eliminations a hidden subset produces: for every cell of unit `u`
/// holding a digit of the kept mask, the eliminations of its candidates
/// outside the kept mask, positions ascending, digits ascending.
pub open spec fn hidden_subset_elims_upto(b: LogicalBoard, u: int, keep: u16, n: int) -> Seq<
    Elimination,
>
    decreases n,
{
    if n <= 0 {
        Seq::empty()
    } else {
        hidden_subset_elims_upto(b, u, keep, n - 1) + {
            let idx = unit_cell(u, n - 1);
            if b.cells@[idx] == 0 && (b.candidates@[idx] & keep) != 0 {
                cell_elims(idx, b.candidates@[idx] & !keep)
            } else {
                Seq::empty()
            }
        }
    }
}

/// The eliminations a hidden subset with kept mask `keep` produces in unit
/// `u`.
pub open spec fn hidden_subset_elims(b: LogicalBoard, u: int, keep: u16) -> Seq<Elimination> {
    hidden_subset_elims_upto(b, u, keep, 9)
}

/// The step a hidden subset produces: no placement, the subset's
/// eliminations, and one cause cell per subset cell carrying the kept digits.
pub open spec fn hidden_subset_step_at(
    b: LogicalBoard,
    u: int,
    keep: u16,
    tech: Seq<char>,
    s: SolvingStep,
) -> bool {
    &&& s.technique@ == tech
    &&& s.placements@.len() == 0
    &&& s.eliminations@ == hidden_subset_elims(b, u, keep)
    &&& s.cause@.len() == subset_positions(b, u, keep).len()
    &&& (forall|n: int|
        0 <= n < s.cause@.len() ==> {
            &&& (#[trigger] s.cause@[n]).index == unit_cell(u, subset_positions(b, u, keep)[n])
            &&& s.cause@[n].candidates@ == digits_of(keep)
        })
}

/// Two digits of unit `u` that occur in exactly the same two cells, at least
/// one of which still holds another candidate.
pub open spec fn hidden_pair_at(b: LogicalBoard, u: int, d1: int, d2: int) -> bool {
    &&& 0 <= u < 27
    &&& 1 <= d1 < d2 <= 9
    &&& (forall|k: int|
        0 <= k < 9 ==> (b.has_cand(#[trigger] unit_cell(u, k), d1) <==> b.has_cand(
            unit_cell(u, k),
            d2,
        )))
    &&& super::basic::unit_digit_count(b, u, d1) == 2
    &&& hidden_subset_elims(
        b,
        u,
        (1u16 << ((d1 - 1) as u16)) | (1u16 << ((d2 - 1) as u16)),
    ).len() > 0
}

/// Three digits of unit `u`, each occurring in two or three cells, together
/// confined to exactly three cells, at least one of which still holds
/// another candidate.
pub open spec fn hidden_triple_at(b: LogicalBoard, u: int, d1: int, d2: int, d3: int) -> bool {
    &&& 0 <= u < 27
    &&& 1 <= d1 < d2 < d3 <= 9
    &&& 2 <= super::basic::unit_digit_count(b, u, d1) <= 3
    &&& 2 <= super::basic::unit_digit_count(b, u, d2) <= 3
    &&& 2 <= super::basic::unit_digit_count(b, u, d3) <= 3
    &&& unit_any_count(
        b,
        u,
        (1u16 << ((d1 - 1) as u16)) | (1u16 << ((d2 - 1) as u16)) | (1u16 << ((d3 - 1) as u16)),
    ) == 3
    &&& hidden_subset_elims(
        b,
        u,
        (1u16 << ((d1 - 1) as u16)) | (1u16 << ((d2 - 1) as u16)) | (1u16 << ((d3 - 1) as u16)),
    ).len() > 0
}

/// Some hidden pair produces this step, and it is the first match in scan
/// order: units ascending, then digit pairs in ascending lexicographic
/// order.
pub open spec fn some_hidden_pair_step(b: LogicalBoard, s: SolvingStep) -> bool {
    exists|u: int, d1: int, d2: int|
        #![trigger hidden_pair_at(b, u, d1, d2)]
        {
            &&& hidden_pair_at(b, u, d1, d2)
            &&& (forall|u2: int, a: int, c: int|
                u2 < u || (u2 == u && (a < d1 || (a == d1 && c < d2))) ==> !hidden_pair_at(
                    b,
                    u2,
                    a,
                    c,
                ))
            &&& hidden_subset_step_at(
                b,
                u,
                (1u16 << ((d1 - 1) as u16)) | (1u16 << ((d2 - 1) as u16)),
                "HiddenPair"@,
                s,
            )
        }
}

/// Some hidden triple produces this step, and it is the first match in
/// scan order: units ascending, then digit triples in ascending
/// lexicographic order.
pub open spec fn some_hidden_triple_step(b: LogicalBoard, s: SolvingStep) -> bool {
    exists|u: int, d1: int, d2: int, d3: int|
        #![trigger hidden_triple_at(b, u, d1, d2, d3)]
        {
            &&& hidden_triple_at(b, u, d1, d2, d3)
            &&& (forall|u2: int, a: int, c: int, e: int|
                u2 < u || (u2 == u && (a < d1 || (a == d1 && (c < d2 || (c == d2 && e
                    < d3))))) ==> !hidden_triple_at(b, u2, a, c, e))
            &&& hidden_subset_step_at(
                b,
                u,
                (1u16 << ((d1 - 1) as u16)) | (1u16 << ((d2 - 1) as u16)) | (1u16 << ((d3
                    - 1) as u16)),
                "HiddenTriple"@,
                s,
            )
        }
}

/// Every elimination of a hidden subset is valid.
proof fn lemma_hidden_subset_elims_valid(b: LogicalBoard, u: int, keep: u16, n: int)
    requires
        b.wf(),
        0 <= u < 27,
        n <= 9,
    ensures
        forall|j: int|
            0 <= j < hidden_subset_elims_upto(b, u, keep, n).len() ==> elimination_valid(
                b,
                #[trigger] hidden_subset_elims_upto(b, u, keep, n)[j],
            ),
    decreases n,
{
    if n > 0 {
        lemma_hidden_subset_elims_valid(b, u, keep, n - 1);
        let s = hidden_subset_elims_upto(b, u, keep, n);
        let rest = hidden_subset_elims_upto(b, u, keep, n - 1);
        let idx = unit_cell(u, n - 1);
        crate::geometry::lemma_unit_cell_range(u, n - 1);
        assert forall|j: int| 0 <= j < s.len() implies elimination_valid(b, #[trigger] s[j]) by {
            if j < rest.len() {
                assert(s[j] == rest[j]);
            } else {
                lemma_mask_and(b.candidates@[idx], !keep);
                lemma_cell_elims_valid(b, idx, b.candidates@[idx] & !keep, 10);
                let tail = cell_elims(idx, b.candidates@[idx] & !keep);
                assert(s[j] == tail[j - rest.len()]);
            }
        }
    }
}

/// Creates a map of where each candidate appears in a unit: entry `d`
/// (1..=9) is a bitmask of the unit positions (0..9) where digit `d` is
/// still a candidate.
fn get_candidate_positions_in_unit(board: &LogicalBoard, u: usize) -> (pm: Vec<u16>)
    requires
        board.wf(),
        u < 27,
    ensures
        pm@.len() == 10,
        forall|d: int| 0 <= d < 10 ==> pm@[d] < 512,
        forall|d: int, k: int|
            1 <= d <= 9 && 0 <= k < 9 ==> (#[trigger] mask_bit(pm@[d], k) <==> board.has_cand(
                unit_cell(u as int, k),
                d,
            )),
{
    let mut pm: Vec<u16> = vec![0u16; 10];
    proof {
        crate::masks::lemma_mask_extremes();
    }
    let mut k: usize = 0;
    while k < 9
        invariant
            board.wf(),
            u < 27,
            k <= 9,
            pm@.len() == 10,
            forall|d: int| 0 <= d < 10 ==> pm@[d] < 512,
            forall|d: int, k0: int|
                1 <= d <= 9 && 0 <= k0 < 9 ==> (#[trigger] mask_bit(pm@[d], k0) <==> (k0 < k
                    && board.has_cand(unit_cell(u as int, k0), d))),
        decreases 9 - k,
    {
        let idx = unit_cell_at(u, k);
        if board.cells[idx] == 0 {
            let cand = board.candidates[idx];
            let mut d: u8 = 1;
            while d <= 9
                invariant
                    board.wf(),
                    u < 27,
                    k < 9,
                    1 <= d <= 10,
                    idx == unit_cell(u as int, k as int),
                    idx < 81,
                    board.cells@[idx as int] == 0,
                    cand == board.candidates@[idx as int],
                    pm@.len() == 10,
                    forall|e: int| 0 <= e < 10 ==> pm@[e] < 512,
                    forall|e: int, k0: int|
                        1 <= e <= 9 && 0 <= k0 < 9 && k0 != k ==> (#[trigger] mask_bit(pm@[e], k0)
                            <==> (k0 < k && board.has_cand(unit_cell(u as int, k0), e))),
                    forall|e: int|
                        1 <= e < d ==> (mask_bit(#[trigger] pm@[e], k as int) <==> board.has_cand(
                            idx as int,
                            e,
                        )),
                    forall|e: int| d <= e <= 9 ==> !mask_bit(#[trigger] pm@[e], k as int),
                decreases 10 - d,
            {
                if mask_has(cand, d) {
                    let updated = pm[d as usize] | (1u16 << (k as u16));
                    proof {
                        crate::masks::lemma_mask_single(k as u16);
                        lemma_mask_or(pm@[d as int], 1u16 << (k as u16));
                        crate::masks::lemma_mask_or_bound(pm@[d as int], 1u16 << (k as u16));
                    }
                    pm.set(d as usize, updated);
                }
                d = d + 1;
            }
        }
        k = k + 1;
    }
    pm
}

/// Builds the step for a hidden subset with kept digit mask `keep`, or
/// reports none when nothing can be eliminated from the subset's cells.
fn construct_hidden_subset_step(
    board: &LogicalBoard,
    u: usize,
    keep: u16,
    technique: &str,
) -> (r: Option<SolvingStep>)
    requires
        board.wf(),
        u < 27,
    ensures
        (r is Some) <==> hidden_subset_elims(*board, u as int, keep).len() > 0,
        r matches Some(s) ==> hidden_subset_step_at(*board, u as int, keep, technique@, s),
        r matches Some(s) ==> step_sound(*board, s),
{
    let subset_nums = mask_to_vec(keep);
    let mut eliminations: Vec<Elimination> = Vec::new();
    let mut cause: Vec<CauseCell> = Vec::new();
    let mut k: usize = 0;
    while k < 9
        invariant
            board.wf(),
            u < 27,
            k <= 9,
            subset_nums@ == digits_of(keep),
            eliminations@ == hidden_subset_elims_upto(*board, u as int, keep, k as int),
            cause@.len() == subset_positions_upto(*board, u as int, keep, k as int).len(),
            forall|n: int|
                0 <= n < cause@.len() ==> {
                    &&& (#[trigger] cause@[n]).index == unit_cell(
                        u as int,
                        subset_positions_upto(*board, u as int, keep, k as int)[n],
                    )
                    &&& cause@[n].candidates@ == digits_of(keep)
                },
        decreases 9 - k,
    {
        let ghost old_positions = subset_positions_upto(*board, u as int, keep, k as int);
        proof {
            lemma_subset_positions_grow(*board, u as int, keep, k as int + 1);
        }
        let idx = unit_cell_at(u, k);
        if board.cells[idx] == 0 && (board.candidates[idx] & keep) != 0 {
            let cc = clone_digits(&subset_nums);
            cause.push(CauseCell { index: idx, candidates: cc });
            let other = board.candidates[idx] & !keep;
            let ghost prefix = eliminations@;
            let mut d: u8 = 1;
            while d <= 9
                invariant
                    1 <= d <= 10,
                    idx < 81,
                    eliminations@ == prefix + cell_elims_upto(idx as int, other, d as int),
                decreases 10 - d,
            {
                if mask_has(other, d) {
                    eliminations.push(Elimination { index: idx, value: d });
                }
                d = d + 1;
            }
        }
        k = k + 1;
    }
    if eliminations.len() == 0 {
        return None;
    }
    let s = SolvingStep {
        technique: technique.to_owned(),
        placements: Vec::new(),
        eliminations,
        cause,
    };
    proof {
        lemma_hidden_subset_elims_valid(*board, u as int, keep, 9);
    }
    Some(s)
}

/// The subset position list grows by at most the last position.
proof fn lemma_subset_positions_grow(b: LogicalBoard, u: int, dm: u16, n: int)
    requires
        n >= 1,
    ensures
        subset_positions_upto(b, u, dm, n) == subset_positions_upto(b, u, dm, n - 1) + (
        if b.cells@[unit_cell(u, n - 1)] == 0 && (b.candidates@[unit_cell(u, n - 1)] & dm) != 0 {
            seq![n - 1]
        } else {
            Seq::<int>::empty()
        }),
{
}


/// A position mask whose bits match where digit `d` is a candidate counts
/// exactly the cells of the unit holding `d`.
proof fn lemma_pos_count_bridge(b: LogicalBoard, u: int, d: int, m: u16, n: int)
    requires
        forall|k: int| 0 <= k < 9 ==> (#[trigger] mask_bit(m, k) <==> b.has_cand(unit_cell(u, k), d)),
        0 <= n <= 9,
    ensures
        count_bits_upto(m, n) == super::basic::unit_digit_count_upto(b, u, d, n),
    decreases n,
{
    if n > 0 {
        lemma_pos_count_bridge(b, u, d, m, n - 1);
    }
}

/// A position mask whose bits match where a cell holds any digit of `dm`
/// counts exactly the cells of the unit holding one of those digits.
proof fn lemma_any_count_bridge(b: LogicalBoard, u: int, dm: u16, m: u16, n: int)
    requires
        forall|k: int|
            0 <= k < 9 ==> (#[trigger] mask_bit(m, k) <==> (b.cells@[unit_cell(u, k)] == 0 && (
            b.candidates@[unit_cell(u, k)] & dm) != 0)),
        0 <= n <= 9,
    ensures
        count_bits_upto(m, n) == unit_any_count_upto(b, u, dm, n),
    decreases n,
{
    if n > 0 {
        lemma_any_count_bridge(b, u, dm, m, n - 1);
    }
}

/// A cell holds a digit of the two-digit mask `1<<d1-1 | 1<<d2-1` exactly
/// when it holds `d1` or `d2`.
proof fn lemma_keep_mask_2(b: LogicalBoard, i: int, d1: int, d2: int)
    requires
        b.wf(),
        0 <= i < 81,
        1 <= d1 <= 9,
        1 <= d2 <= 9,
    ensures
        (b.cells@[i] == 0 && (b.candidates@[i] & ((1u16 << ((d1 - 1) as u16)) | (1u16 << ((d2
            - 1) as u16)))) != 0) <==> (b.has_cand(i, d1) || b.has_cand(i, d2)),
{
    let keep = (1u16 << ((d1 - 1) as u16)) | (1u16 << ((d2 - 1) as u16));
    let cand = b.candidates@[i];
    crate::masks::lemma_mask_single((d1 - 1) as u16);
    crate::masks::lemma_mask_single((d2 - 1) as u16);
    lemma_mask_or(1u16 << ((d1 - 1) as u16), 1u16 << ((d2 - 1) as u16));
    lemma_mask_and(cand, keep);
    lemma_nonzero_has_bit(cand & keep);
    if b.cells@[i] == 0 {
        if (cand & keep) != 0 {
            let k = choose|k: int| mask_bit(cand & keep, k);
            assert(k == d1 - 1 || k == d2 - 1);
            assert(b.has_cand(i, d1) || b.has_cand(i, d2));
        }
        if b.has_cand(i, d1) {
            assert(mask_bit(cand & keep, d1 - 1));
        }
        if b.has_cand(i, d2) {
            assert(mask_bit(cand & keep, d2 - 1));
        }
    }
}

/// A cell holds a digit of the three-digit mask for `d1`, `d2`, `d3` exactly
/// when it holds one of them.
proof fn lemma_keep_mask_3(b: LogicalBoard, i: int, d1: int, d2: int, d3: int)
    requires
        b.wf(),
        0 <= i < 81,
        1 <= d1 <= 9,
        1 <= d2 <= 9,
        1 <= d3 <= 9,
    ensures
        (b.cells@[i] == 0 && (b.candidates@[i] & ((1u16 << ((d1 - 1) as u16)) | (1u16 << ((d2
            - 1) as u16)) | (1u16 << ((d3 - 1) as u16)))) != 0) <==> (b.has_cand(i, d1)
            || b.has_cand(i, d2) || b.has_cand(i, d3)),
{
    let m1 = 1u16 << ((d1 - 1) as u16);
    let m2 = 1u16 << ((d2 - 1) as u16);
    let m3 = 1u16 << ((d3 - 1) as u16);
    let cand = b.candidates@[i];
    crate::masks::lemma_mask_single((d1 - 1) as u16);
    crate::masks::lemma_mask_single((d2 - 1) as u16);
    crate::masks::lemma_mask_single((d3 - 1) as u16);
    lemma_mask_or(m1, m2);
    lemma_mask_or(m1 | m2, m3);
    lemma_mask_and(cand, m1 | m2 | m3);
    lemma_nonzero_has_bit(cand & (m1 | m2 | m3));
    if b.cells@[i] == 0 {
        if (cand & (m1 | m2 | m3)) != 0 {
            let k = choose|k: int| mask_bit(cand & (m1 | m2 | m3), k);
            assert(k == d1 - 1 || k == d2 - 1 || k == d3 - 1);
            assert(b.has_cand(i, d1) || b.has_cand(i, d2) || b.has_cand(i, d3));
        }
        if b.has_cand(i, d1) {
            assert(mask_bit(cand & (m1 | m2 | m3), d1 - 1));
        }
        if b.has_cand(i, d2) {
            assert(mask_bit(cand & (m1 | m2 | m3), d2 - 1));
        }
        if b.has_cand(i, d3) {
            assert(mask_bit(cand & (m1 | m2 | m3), d3 - 1));
        }
    }
}

/// Searches every unit for a hidden pair: two digits confined to the same
/// two cells of the unit, where those cells still hold other candidates.
/// Units are scanned in order, digit pairs in ascending order.
pub fn find_hidden_pair(board: &LogicalBoard) -> (r: Option<SolvingStep>)
    requires
        board.wf(),
    ensures
        (r is Some) <==> (exists|u: int, d1: int, d2: int| hidden_pair_at(*board, u, d1, d2)),
        r matches Some(s) ==> some_hidden_pair_step(*board, s),
        r matches Some(s) ==> step_sound(*board, s),
{
    let mut u: usize = 0;
    while u < 27
        invariant
            board.wf(),
            u <= 27,
            forall|u0: int, a: int, b: int| 0 <= u0 < u ==> !hidden_pair_at(*board, u0, a, b),
        decreases 27 - u,
    {
        let pm = get_candidate_positions_in_unit(board, u);
        let mut d1: u8 = 1;
        while d1 <= 9
            invariant
                board.wf(),
                u < 27,
                1 <= d1 <= 10,
                pm@.len() == 10,
                forall|d: int| 0 <= d < 10 ==> pm@[d] < 512,
                forall|d: int, k: int|
                    1 <= d <= 9 && 0 <= k < 9 ==> (#[trigger] mask_bit(pm@[d], k)
                        <==> board.has_cand(unit_cell(u as int, k), d)),
                forall|u0: int, a: int, b: int| 0 <= u0 < u ==> !hidden_pair_at(*board, u0, a, b),
                forall|a: int, b: int| 1 <= a < d1 ==> !hidden_pair_at(*board, u as int, a, b),
            decreases 10 - d1,
        {
            proof {
                lemma_pos_count_bridge(*board, u as int, d1 as int, pm@[d1 as int], 9);
            }
            if mask_count(pm[d1 as usize]) == 2 {
                let mut d2: u8 = d1 + 1;
                while d2 <= 9
                    invariant
                        board.wf(),
                        u < 27,
                        1 <= d1 < d2 <= 10,
                        pm@.len() == 10,
                        forall|d: int| 0 <= d < 10 ==> pm@[d] < 512,
                        forall|d: int, k: int|
                            1 <= d <= 9 && 0 <= k < 9 ==> (#[trigger] mask_bit(pm@[d], k)
                                <==> board.has_cand(unit_cell(u as int, k), d)),
                        count_bits(pm@[d1 as int]) == 2,
                        super::basic::unit_digit_count(*board, u as int, d1 as int) == 2,
                        forall|u0: int, a: int, b: int|
                            0 <= u0 < u ==> !hidden_pair_at(*board, u0, a, b),
                        forall|a: int, b: int| 1 <= a < d1 ==> !hidden_pair_at(*board, u as int, a, b),
                        forall|b: int| d1 < b < d2 ==> !hidden_pair_at(*board, u as int, d1 as int, b),
                    decreases 10 - d2,
                {
                    if pm[d2 as usize] == pm[d1 as usize] {
                        let keep = (1u16 << ((d1 - 1) as u16)) | (1u16 << ((d2 - 1) as u16));
                        let rs = construct_hidden_subset_step(board, u, keep, "HiddenPair");
                        proof {
                            assert forall|k: int| 0 <= k < 9 implies (board.has_cand(
                                #[trigger] unit_cell(u as int, k),
                                d1 as int,
                            ) <==> board.has_cand(unit_cell(u as int, k), d2 as int)) by {
                                assert(mask_bit(pm@[d1 as int], k) == mask_bit(pm@[d2 as int], k));
                            }
                        }
                        if let Some(s) = rs {
                            proof {
                                assert(hidden_pair_at(*board, u as int, d1 as int, d2 as int));
                                assert forall|u2: int, a: int, c: int|
                                    u2 < u as int || (u2 == u as int && (a < d1 as int || (a
                                        == d1 as int && c < d2 as int))) implies !hidden_pair_at(
                                    *board,
                                    u2,
                                    a,
                                    c,
                                ) by {
                                    if hidden_pair_at(*board, u2, a, c) {
                                        assert(0 <= u2 && 1 <= a < c <= 9);
                                        if u2 == u as int && 1 <= a < d1 as int {
                                            assert(!hidden_pair_at(*board, u2, a, c));
                                        }
                                    }
                                }
                                assert(some_hidden_pair_step(*board, s));
                            }
                            return Some(s);
                        }
                        proof {
                            assert(!hidden_pair_at(*board, u as int, d1 as int, d2 as int));
                        }
                    } else {
                        proof {
                            if hidden_pair_at(*board, u as int, d1 as int, d2 as int) {
                                assert forall|k: int| 0 <= k < 9 implies (mask_bit(
                                    pm@[d1 as int],
                                    k,
                                ) <==> mask_bit(pm@[d2 as int], k)) by {
                                    assert(board.has_cand(unit_cell(u as int, k), d1 as int)
                                        <==> board.has_cand(unit_cell(u as int, k), d2 as int));
                                }
                                lemma_mask_ext(pm@[d1 as int], pm@[d2 as int]);
                            }
                        }
                    }
                    d2 = d2 + 1;
                }
            }
            proof {
                assert forall|b: int| !hidden_pair_at(*board, u as int, d1 as int, b) by {}
            }
            d1 = d1 + 1;
        }
        u = u + 1;
    }
    None
}

/// Searches every unit for a hidden triple: three digits, each in two or
/// three cells of the unit, together confined to exactly three cells that
/// still hold other candidates. Units in order, digit triples ascending.
pub fn find_hidden_triple(board: &LogicalBoard) -> (r: Option<SolvingStep>)
    requires
        board.wf(),
    ensures
        (r is Some) <==> (exists|u: int, d1: int, d2: int, d3: int|
            hidden_triple_at(*board, u, d1, d2, d3)),
        r matches Some(s) ==> some_hidden_triple_step(*board, s),
        r matches Some(s) ==> step_sound(*board, s),
{
    let mut u: usize = 0;
    while u < 27
        invariant
            board.wf(),
            u <= 27,
            forall|u0: int, a: int, b: int, c: int|
                0 <= u0 < u ==> !hidden_triple_at(*board, u0, a, b, c),
        decreases 27 - u,
    {
        let pm = get_candidate_positions_in_unit(board, u);
        let mut d1: u8 = 1;
        while d1 <= 9
            invariant
                board.wf(),
                u < 27,
                1 <= d1 <= 10,
                pm@.len() == 10,
                forall|d: int| 0 <= d < 10 ==> pm@[d] < 512,
                forall|d: int, k: int|
                    1 <= d <= 9 && 0 <= k < 9 ==> (#[trigger] mask_bit(pm@[d], k)
                        <==> board.has_cand(unit_cell(u as int, k), d)),
                forall|u0: int, a: int, b: int, c: int|
                    0 <= u0 < u ==> !hidden_triple_at(*board, u0, a, b, c),
                forall|a: int, b: int, c: int|
                    1 <= a < d1 ==> !hidden_triple_at(*board, u as int, a, b, c),
            decreases 10 - d1,
        {
            proof {
                lemma_pos_count_bridge(*board, u as int, d1 as int, pm@[d1 as int], 9);
            }
            let n1 = mask_count(pm[d1 as usize]);
            if 2 <= n1 && n1 <= 3 {
                let mut d2: u8 = d1 + 1;
                while d2 <= 9
                    invariant
                        board.wf(),
                        u < 27,
                        1 <= d1 < d2 <= 10,
                        pm@.len() == 10,
                        forall|d: int| 0 <= d < 10 ==> pm@[d] < 512,
                        forall|d: int, k: int|
                            1 <= d <= 9 && 0 <= k < 9 ==> (#[trigger] mask_bit(pm@[d], k)
                                <==> board.has_cand(unit_cell(u as int, k), d)),
                        2 <= super::basic::unit_digit_count(*board, u as int, d1 as int) <= 3,
                        forall|u0: int, a: int, b: int, c: int|
                            0 <= u0 < u ==> !hidden_triple_at(*board, u0, a, b, c),
                        forall|a: int, b: int, c: int|
                            1 <= a < d1 ==> !hidden_triple_at(*board, u as int, a, b, c),
                        forall|b: int, c: int|
                            d1 < b < d2 ==> !hidden_triple_at(*board, u as int, d1 as int, b, c),
                    decreases 10 - d2,
                {
                    proof {
                        lemma_pos_count_bridge(*board, u as int, d2 as int, pm@[d2 as int], 9);
                    }
                    let n2 = mask_count(pm[d2 as usize]);
                    if 2 <= n2 && n2 <= 3 {
                        let mut d3: u8 = d2 + 1;
                        while d3 <= 9
                            invariant
                                board.wf(),
                                u < 27,
                                1 <= d1 < d2 < d3 <= 10,
                                pm@.len() == 10,
                                forall|d: int| 0 <= d < 10 ==> pm@[d] < 512,
                                forall|d: int, k: int|
                                    1 <= d <= 9 && 0 <= k < 9 ==> (#[trigger] mask_bit(pm@[d], k)
                                        <==> board.has_cand(unit_cell(u as int, k), d)),
                                2 <= super::basic::unit_digit_count(*board, u as int, d1 as int)
                                    <= 3,
                                2 <= super::basic::unit_digit_count(*board, u as int, d2 as int)
                                    <= 3,
                                forall|u0: int, a: int, b: int, c: int|
                                    0 <= u0 < u ==> !hidden_triple_at(*board, u0, a, b, c),
                                forall|a: int, b: int, c: int|
                                    1 <= a < d1 ==> !hidden_triple_at(*board, u as int, a, b, c),
                                forall|b: int, c: int|
                                    d1 < b < d2 ==> !hidden_triple_at(
                                        *board,
                                        u as int,
                                        d1 as int,
                                        b,
                                        c,
                                    ),
                                forall|c: int|
                                    d2 < c < d3 ==> !hidden_triple_at(
                                        *board,
                                        u as int,
                                        d1 as int,
                                        d2 as int,
                                        c,
                                    ),
                            decreases 10 - d3,
                        {
                            proof {
                                lemma_pos_count_bridge(
                                    *board,
                                    u as int,
                                    d3 as int,
                                    pm@[d3 as int],
                                    9,
                                );
                            }
                            let n3 = mask_count(pm[d3 as usize]);
                            if 2 <= n3 && n3 <= 3 {
                                let combined = pm[d1 as usize] | pm[d2 as usize] | pm[d3 as usize];
                                let keep = (1u16 << ((d1 - 1) as u16)) | (1u16 << ((d2
                                    - 1) as u16)) | (1u16 << ((d3 - 1) as u16));
                                proof {
                                    lemma_mask_or(pm@[d1 as int], pm@[d2 as int]);
                                    lemma_mask_or(pm@[d1 as int] | pm@[d2 as int], pm@[d3 as int]);
                                    assert forall|k: int| 0 <= k < 9 implies (#[trigger] mask_bit(
                                        combined,
                                        k,
                                    ) <==> (board.cells@[unit_cell(u as int, k)] == 0 && (
                                    board.candidates@[unit_cell(u as int, k)] & keep) != 0)) by {
                                        crate::geometry::lemma_unit_cell_range(u as int, k);
                                        lemma_keep_mask_3(
                                            *board,
                                            unit_cell(u as int, k),
                                            d1 as int,
                                            d2 as int,
                                            d3 as int,
                                        );
                                    }
                                    lemma_any_count_bridge(*board, u as int, keep, combined, 9);
                                }
                                if mask_count(combined) == 3 {
                                    let rs = construct_hidden_subset_step(
                                        board,
                                        u,
                                        keep,
                                        "HiddenTriple",
                                    );
                                    if let Some(s) = rs {
                                        proof {
                                            assert(hidden_triple_at(
                                                *board,
                                                u as int,
                                                d1 as int,
                                                d2 as int,
                                                d3 as int,
                                            ));
                                            assert forall|u2: int, a: int, c: int, e: int|
                                                u2 < u as int || (u2 == u as int && (a
                                                    < d1 as int || (a == d1 as int && (c
                                                    < d2 as int || (c == d2 as int && e
                                                    < d3 as int))))) implies !hidden_triple_at(
                                                *board,
                                                u2,
                                                a,
                                                c,
                                                e,
                                            ) by {
                                                if hidden_triple_at(*board, u2, a, c, e) {
                                                    assert(0 <= u2 && 1 <= a < c < e <= 9);
                                                }
                                            }
                                            assert(some_hidden_triple_step(*board, s));
                                        }
                                        return Some(s);
                                    }
                                }
                            }
                            d3 = d3 + 1;
                        }
                    }
                    proof {
                        assert forall|c: int|
                            !hidden_triple_at(*board, u as int, d1 as int, d2 as int, c) by {}
                    }
                    d2 = d2 + 1;
                }
            }
            proof {
                assert forall|b: int, c: int|
                    !hidden_triple_at(*board, u as int, d1 as int, b, c) by {}
            }
            d1 = d1 + 1;
        }
        u = u + 1;
    }
    None
}

} // verus!

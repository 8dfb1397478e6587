//! A logical Sudoku solver that uses human-like techniques.
//!
//! This module holds the candidate-tracking board, its two mutating
//! primitives, the step-application machinery and the difficulty classifier;
//! the technique finders live in submodules.

pub mod basic;
pub mod intersection;
pub mod single_digit;
pub mod fish;
pub mod subsets;
pub mod uniqueness;
pub mod wings;

use vstd::prelude::*;

use crate::board::Board;
use crate::board::grid_valid;
use crate::board::full_solution_of;
use crate::geometry::is_peer;
use crate::geometry::unit_cell;
use crate::geometry::are_peers;
use crate::masks::{
    ALL_CANDIDATES,
    has_digit,
    count_bits,
        lemma_mask_clear,
    lemma_mask_extremes,
    lemma_count_upto_none,
    lemma_count_upto_le,
};
use crate::types::{Placement, Elimination, SolvingStep};

verus! {

/// Represents the logical difficulty of a solving technique.
#[derive(Debug, Clone, Copy, PartialEq, Eq, Structural)]
pub enum TechniqueLevel {
    /// No logical moves found, or a technique name outside the catalog.
    Unrated,
    /// Naked/Hidden Singles.
    Basic,
    /// Pointing Subsets, Naked/Hidden Pairs/Triples, Box-Line Reduction.
    Intermediate,
    /// X-Wing, Swordfish, XY-Wing, XYZ-Wing, Skyscraper, 2-String Kite.
    Advanced,
    /// Jellyfish, Unique Rectangle, W-Wing.
    Master,
}

/// Numeric rank of a level within the total order
/// `None < Basic < Intermediate < Advanced < Master`.
pub open spec fn level_rank(l: TechniqueLevel) -> int {
    match l {
        TechniqueLevel::Unrated => 0,
        TechniqueLevel::Basic => 1,
        TechniqueLevel::Intermediate => 2,
        TechniqueLevel::Advanced => 3,
        TechniqueLevel::Master => 4,
    }
}

/// Stats for difficulty analysis.
pub struct DifficultyStats {
    /// The hardest level among the classified steps.
    pub max_level: TechniqueLevel,
    /// Number of steps classified Intermediate.
    pub intermediate_count: usize,
    /// Number of steps classified Advanced.
    pub advanced_count: usize,
    /// Number of steps classified Master.
    pub master_count: usize,
}

/// A Sudoku board with candidate tracking for logical solving.
pub struct LogicalBoard {
    /// The definitive numbers on the board (0 for empty).
    pub cells: Vec<u8>,
    /// A bitmask for each cell representing possible candidates (1-9).
    /// A `0` indicates the cell is filled.
    pub candidates: Vec<u16>,
}

impl LogicalBoard {
    /// Well-formedness: 81 cells with digits 0..=9, 81 candidate masks below
    /// 2^9, and a filled cell has no candidates left.
    pub open spec fn wf(&self) -> bool {
        &&& self.cells@.len() == 81
        &&& self.candidates@.len() == 81
        &&& (forall|i: int| 0 <= i < 81 ==> self.cells@[i] <= 9)
        &&& (forall|i: int| 0 <= i < 81 ==> self.candidates@[i] < 512)
        &&& (forall|i: int| 0 <= i < 81 && self.cells@[i] != 0 ==> self.candidates@[i] == 0)
    }

    /// Whether cell `i` is empty and still holds digit `d` as a candidate.
    pub open spec fn has_cand(&self, i: int, d: int) -> bool {
        &&& 0 <= i < 81
        &&& self.cells@[i] == 0
        &&& has_digit(self.candidates@[i], d)
    }

    /// Initializes a LogicalBoard calculating candidates based on existing
    /// values: empty cells are seeded with all nine digits, then every
    /// pre-filled cell's digit is removed from its 20 peers.
    pub fn from_board(board: &Board) -> (r: LogicalBoard)
        requires
            board.wf(),
        ensures
            r.wf(),
            r.cells@ == board.cells@,
            forall|i: int, d: int|
                0 <= i < 81 && 1 <= d <= 9 ==> (#[trigger] r.has_cand(i, d) <==> (
                board.cells@[i] == 0 && !grid_sees_digit(board.cells@, i, d))),
            forall|sol: Seq<u8>|
                #[trigger] full_solution_of(sol, board.cells@) ==> admits_solution(r, sol),
            r.candidates@ == initial_candidates(board.cells@),
    {
        let mut r = LogicalBoard { cells: board.cells.clone(), candidates: vec![0u16; 81] };
        assert(r.cells@ == board.cells@);
        let mut i: usize = 0;
        while i < 81
            invariant
                r.cells@ == board.cells@,
                r.candidates@.len() == 81,
                board.wf(),
                i <= 81,
                forall|c: int|
                    0 <= c < i ==> r.candidates@[c] == (if r.cells@[c] == 0 {
                        ALL_CANDIDATES
                    } else {
                        0u16
                    }),
                forall|c: int| i <= c < 81 ==> r.candidates@[c] == 0,
            decreases 81 - i,
        {
            if r.cells[i] == 0 {
                r.candidates.set(i, ALL_CANDIDATES);
            }
            i = i + 1;
        }
        proof {
            lemma_mask_extremes();
        }
        let mut i: usize = 0;
        while i < 81
            invariant
                r.cells@ == board.cells@,
                r.wf(),
                board.wf(),
                i <= 81,
                forall|c: int, d: int|
                    0 <= c < 81 && 1 <= d <= 9 && r.cells@[c] == 0 ==> (#[trigger] has_digit(
                        r.candidates@[c],
                        d,
                    ) <==> !(exists|j: int|
                        0 <= j < i && #[trigger] is_peer(c, j) && board.cells@[j] == d)),
            decreases 81 - i,
        {
            let v = r.cells[i];
            if v != 0 {
                let ghost pre = r;
                r.eliminate_from_peers(i, v);
                proof {
                    assert forall|c: int, d: int|
                        0 <= c < 81 && 1 <= d <= 9 && r.cells@[c] == 0 implies (
                    #[trigger] has_digit(r.candidates@[c], d) <==> !(exists|j: int|
                        0 <= j < i + 1 && #[trigger] is_peer(c, j) && board.cells@[j]
                            == d)) by {
                        lemma_mask_clear(pre.candidates@[c], (v - 1) as u16);
                        assert(is_peer(i as int, c) == is_peer(c, i as int));
                        if has_digit(r.candidates@[c], d) {
                            assert(has_digit(pre.candidates@[c], d));
                            if is_peer(c, i as int) {
                                assert(d != v);
                            }
                            assert(!(exists|j: int|
                                0 <= j < i + 1 && #[trigger] is_peer(c, j) && board.cells@[j]
                                    == d));
                        } else {
                            if !(exists|j: int|
                                0 <= j < i && #[trigger] is_peer(c, j) && board.cells@[j] == d) {
                                assert(has_digit(pre.candidates@[c], d));
                                assert(is_peer(c, i as int) && board.cells@[i as int] == d);
                            }
                        }
                    }
                }
            }
            i = i + 1;
        }
        proof {
            assert forall|i: int, d: int| 0 <= i < 81 && 1 <= d <= 9 implies (
            #[trigger] r.has_cand(i, d) <==> (board.cells@[i] == 0 && !grid_sees_digit(
                board.cells@,
                i,
                d,
            ))) by {
                if board.cells@[i] == 0 {
                    assert(grid_sees_digit(board.cells@, i, d) <==> (exists|j: int|
                        0 <= j < 81 && #[trigger] is_peer(i, j) && board.cells@[j] == d));
                }
            }
            assert forall|i: int| 0 <= i < 81 implies r.candidates@[i] == initial_candidates(
                board.cells@,
            )[i] by {
                if board.cells@[i] == 0 {
                    lemma_unseen_mask_bits(board.cells@, i, 9);
                    assert forall|p: int|
                        #[trigger] crate::masks::mask_bit(r.candidates@[i], p)
                            <==> crate::masks::mask_bit(unseen_mask(board.cells@, i), p) by {
                        if 0 <= p < 9 {
                            assert(r.has_cand(i, p + 1) <==> (board.cells@[i] == 0
                                && !grid_sees_digit(board.cells@, i, p + 1)));
                        }
                    }
                    crate::masks::lemma_mask_ext(r.candidates@[i], unseen_mask(board.cells@, i));
                }
            }
            assert(r.candidates@ =~= initial_candidates(board.cells@));
            assert forall|sol: Seq<u8>|
                #[trigger] full_solution_of(sol, board.cells@) implies admits_solution(r, sol) by {
                assert forall|i: int|
                    0 <= i < 81 && r.cells@[i] == 0 implies has_digit(
                    r.candidates@[i],
                    #[trigger] sol[i] as int,
                ) by {
                    if grid_sees_digit(board.cells@, i, sol[i] as int) {
                        let j = choose|j: int|
                            #[trigger] is_peer(i, j) && board.cells@[j] == sol[i];
                        assert(sol[j] == board.cells@[j]);
                        assert(sol[j] != sol[i]);
                    }
                    assert(r.has_cand(i, sol[i] as int));
                }
            }
        }
        r
    }

    /// Sets a cell value and eliminates that value from peers. Returns true
    /// if successful, false (leaving the board unchanged) if the cell was
    /// already filled.
    pub fn set_cell(&mut self, index: usize, value: u8) -> (ok: bool)
        requires
            old(self).wf(),
            index < 81,
            1 <= value <= 9,
        ensures
            final(self).wf(),
            ok == (old(self).cells@[index as int] == 0),
            !ok ==> *final(self) == *old(self),
            ok ==> final(self).cells@ == old(self).cells@.update(index as int, value),
            ok ==> forall|j: int|
                0 <= j < 81 ==> final(self).candidates@[j] == (if j == index {
                    0u16
                } else if is_peer(index as int, j) {
                    old(self).candidates@[j] & !(1u16 << ((value - 1) as u16))
                } else {
                    old(self).candidates@[j]
                }),
    {
        if self.cells[index] != 0 {
            return false;
        }
        self.cells.set(index, value);
        self.candidates.set(index, 0);
        self.eliminate_from_peers(index, value);
        true
    }

    /// Clears one candidate bit on one cell; a no-op if already clear.
    pub fn eliminate(&mut self, index: usize, value: u8)
        requires
            old(self).wf(),
            index < 81,
            1 <= value <= 9,
        ensures
            final(self).wf(),
            final(self).cells@ == old(self).cells@,
            final(self).candidates@ == old(self).candidates@.update(
                index as int,
                old(self).candidates@[index as int] & !(1u16 << ((value - 1) as u16)),
            ),
            forall|i: int, d: int| final(self).has_cand(i, d) ==> old(self).has_cand(i, d),
            board_measure(*final(self)) <= board_measure(*old(self)),
            old(self).has_cand(index as int, value as int) ==> board_measure(*final(self))
                < board_measure(*old(self)),
    {
        let em: u16 = !(1u16 << ((value - 1) as u16));
        let m = self.candidates[index];
        self.candidates.set(index, m & em);
        proof {
            lemma_mask_clear(m, (value - 1) as u16);
            assert forall|i: int, d: int| self.has_cand(i, d) implies old(self).has_cand(
                i,
                d,
            ) by {}
            assert forall|i: int| 0 <= i < 81 implies cell_weight(*self, i) <= cell_weight(
                *old(self),
                i,
            ) by {
                if i == index {
                    lemma_count_upto_le(m & em, m, 9);
                }
            }
            lemma_measure_le(*self, *old(self), 81);
            if old(self).has_cand(index as int, value as int) {
                lemma_count_upto_le(m & em, m, 9);
                lemma_count_split_digit(m, value as int);
                lemma_measure_lt(*self, *old(self), index as int, 81);
            }
        }
    }

    /// Removes a value from the candidate masks of all peers of the given
    /// index.
    fn eliminate_from_peers(&mut self, index: usize, value: u8)
        requires
            old(self).wf(),
            index < 81,
            1 <= value <= 9,
        ensures
            final(self).wf(),
            final(self).cells@ == old(self).cells@,
            forall|j: int|
                0 <= j < 81 ==> final(self).candidates@[j] == (if is_peer(index as int, j) {
                    old(self).candidates@[j] & !(1u16 << ((value - 1) as u16))
                } else {
                    old(self).candidates@[j]
                }),
    {
        let em: u16 = !(1u16 << ((value - 1) as u16));
        let mut j: usize = 0;
        while j < 81
            invariant
                self.cells@ == old(self).cells@,
                self.wf(),
                index < 81,
                1 <= value <= 9,
                em == !(1u16 << ((value - 1) as u16)),
                j <= 81,
                forall|c: int|
                    0 <= c < j ==> self.candidates@[c] == (if is_peer(index as int, c) {
                        old(self).candidates@[c] & !(1u16 << ((value - 1) as u16))
                    } else {
                        old(self).candidates@[c]
                    }),
                forall|c: int| j <= c < 81 ==> self.candidates@[c] == old(self).candidates@[c],
            decreases 81 - j,
        {
            if are_peers(index, j) {
                let m = self.candidates[j];
                self.candidates.set(j, m & em);
                proof {
                    lemma_mask_clear(m, (value - 1) as u16);
                }
            }
            j = j + 1;
        }
    }
}

/// Whether some peer of cell `i` in the grid holds digit `d`.
pub open spec fn grid_sees_digit(cells: Seq<u8>, i: int, d: int) -> bool {
    exists|j: int| #[trigger] is_peer(i, j) && cells[j] == d
}

/// A placement a finder may emit: an empty cell, with the placed digit still
/// among its candidates.
pub open spec fn placement_valid(b: LogicalBoard, p: Placement) -> bool {
    &&& p.index < 81
    &&& 1 <= p.value <= 9
    &&& b.has_cand(p.index as int, p.value as int)
}

/// An elimination a finder may emit: an empty cell that still holds the
/// eliminated digit as a candidate.
pub open spec fn elimination_valid(b: LogicalBoard, e: Elimination) -> bool {
    &&& e.index < 81
    &&& 1 <= e.value <= 9
    &&& b.has_cand(e.index as int, e.value as int)
}

/// Every step a finder returns: at most one placement, all placements and
/// eliminations valid for the board the finder saw, and a non-empty effect.
pub open spec fn step_sound(b: LogicalBoard, s: SolvingStep) -> bool {
    &&& s.placements@.len() <= 1
    &&& (forall|n: int|
        0 <= n < s.placements@.len() ==> placement_valid(b, #[trigger] s.placements@[n]))
    &&& (forall|n: int|
        0 <= n < s.eliminations@.len() ==> elimination_valid(b, #[trigger] s.eliminations@[n]))
    &&& s.placements@.len() + s.eliminations@.len() >= 1
}

/// The eliminations of digit `d` among peers below `n` of cell `i` that
/// still hold it as a candidate, in ascending cell order.
pub open spec fn peer_elims_upto(b: LogicalBoard, i: int, d: u8, n: int) -> Seq<Elimination>
    decreases n,
{
    if n <= 0 {
        Seq::empty()
    } else {
        peer_elims_upto(b, i, d, n - 1) + if is_peer(i, n - 1) && b.has_cand(n - 1, d as int) {
            seq![Elimination { index: (n - 1) as usize, value: d }]
        } else {
            Seq::empty()
        }
    }
}

/// The eliminations of digit `d` among all peers of cell `i` that still hold
/// it as a candidate, in ascending cell order.
pub open spec fn peer_elims(b: LogicalBoard, i: int, d: u8) -> Seq<Elimination> {
    peer_elims_upto(b, i, d, 81)
}

/// The eliminations at cell `i` of the digits below `d` present in mask `m`,
/// in ascending digit order.
pub open spec fn cell_elims_upto(i: int, m: u16, d: int) -> Seq<Elimination>
    decreases d,
{
    if d <= 1 {
        Seq::empty()
    } else {
        cell_elims_upto(i, m, d - 1) + if has_digit(m, d - 1) {
            seq![Elimination { index: i as usize, value: (d - 1) as u8 }]
        } else {
            Seq::empty()
        }
    }
}

/// The eliminations at cell `i` of every digit of mask `m`, in ascending
/// digit order.
pub open spec fn cell_elims(i: int, m: u16) -> Seq<Elimination> {
    cell_elims_upto(i, m, 10)
}

/// Every element of `peer_elims` is a valid elimination of digit `d`.
pub proof fn lemma_peer_elims_valid(b: LogicalBoard, i: int, d: u8, n: int)
    requires
        b.wf(),
        1 <= d <= 9,
        n <= 81,
    ensures
        forall|k: int|
            0 <= k < peer_elims_upto(b, i, d, n).len() ==> {
                &&& elimination_valid(b, #[trigger] peer_elims_upto(b, i, d, n)[k])
                &&& peer_elims_upto(b, i, d, n)[k].value == d
                &&& is_peer(i, peer_elims_upto(b, i, d, n)[k].index as int)
            },
    decreases n,
{
    if n > 0 {
        lemma_peer_elims_valid(b, i, d, n - 1);
        let s = peer_elims_upto(b, i, d, n);
        let rest = peer_elims_upto(b, i, d, n - 1);
        assert forall|k: int|
            0 <= k < s.len() implies {
            &&& elimination_valid(b, #[trigger] s[k])
            &&& s[k].value == d
            &&& is_peer(i, s[k].index as int)
        } by {
            if k < rest.len() {
                assert(s[k] == rest[k]);
            } else {
                assert(s[k] == Elimination { index: (n - 1) as usize, value: d });
            }
        }
    }
}

/// Every element of `cell_elims` at an empty cell whose mask is below the
/// cell's candidates is a valid elimination at that cell.
pub proof fn lemma_cell_elims_valid(b: LogicalBoard, i: int, m: u16, d: int)
    requires
        b.wf(),
        0 <= i < 81,
        b.cells@[i] == 0,
        forall|e: int| has_digit(m, e) ==> has_digit(b.candidates@[i], e),
        d <= 10,
    ensures
        forall|k: int|
            0 <= k < cell_elims_upto(i, m, d).len() ==> {
                &&& elimination_valid(b, #[trigger] cell_elims_upto(i, m, d)[k])
                &&& cell_elims_upto(i, m, d)[k].index == i
                &&& has_digit(m, cell_elims_upto(i, m, d)[k].value as int)
            },
    decreases d,
{
    if d > 1 {
        lemma_cell_elims_valid(b, i, m, d - 1);
        let s = cell_elims_upto(i, m, d);
        let rest = cell_elims_upto(i, m, d - 1);
        assert forall|k: int|
            0 <= k < s.len() implies {
            &&& elimination_valid(b, #[trigger] s[k])
            &&& s[k].index == i
            &&& has_digit(m, s[k].value as int)
        } by {
            if k < rest.len() {
                assert(s[k] == rest[k]);
            } else {
                assert(s[k] == Elimination { index: i as usize, value: (d - 1) as u8 });
            }
        }
    }
}

/// `cell_elims` is empty exactly when the mask holds no digit.
pub proof fn lemma_cell_elims_empty(i: int, m: u16, d: int)
    requires
        d <= 10,
    ensures
        cell_elims_upto(i, m, d).len() == 0 <==> (forall|e: int| 1 <= e < d ==> !has_digit(m, e)),
    decreases d,
{
    if d > 1 {
        lemma_cell_elims_empty(i, m, d - 1);
    }
}


/// The eliminations of digit `d` among the cells below `n` that are peers of
/// both `i1` and `i2` and still hold it, in ascending cell order.
pub open spec fn common_peer_elims_upto(b: LogicalBoard, i1: int, i2: int, d: u8, n: int) -> Seq<
    Elimination,
>
    decreases n,
{
    if n <= 0 {
        Seq::empty()
    } else {
        common_peer_elims_upto(b, i1, i2, d, n - 1) + if is_peer(i1, n - 1) && is_peer(i2, n - 1)
            && b.has_cand(n - 1, d as int) {
            seq![Elimination { index: (n - 1) as usize, value: d }]
        } else {
            Seq::empty()
        }
    }
}

/// The eliminations of digit `d` among the common peers of `i1` and `i2`.
pub open spec fn common_peer_elims(b: LogicalBoard, i1: int, i2: int, d: u8) -> Seq<Elimination> {
    common_peer_elims_upto(b, i1, i2, d, 81)
}

/// Every common-peer elimination is valid.
pub proof fn lemma_common_peer_elims_valid(b: LogicalBoard, i1: int, i2: int, d: u8, n: int)
    requires
        b.wf(),
        1 <= d <= 9,
        n <= 81,
    ensures
        forall|j: int|
            0 <= j < common_peer_elims_upto(b, i1, i2, d, n).len() ==> elimination_valid(
                b,
                #[trigger] common_peer_elims_upto(b, i1, i2, d, n)[j],
            ),
    decreases n,
{
    if n > 0 {
        lemma_common_peer_elims_valid(b, i1, i2, d, n - 1);
        let s = common_peer_elims_upto(b, i1, i2, d, n);
        let rest = common_peer_elims_upto(b, i1, i2, d, n - 1);
        assert forall|j: int| 0 <= j < s.len() implies elimination_valid(b, #[trigger] s[j]) by {
            if j < rest.len() {
                assert(s[j] == rest[j]);
            }
        }
    }
}

/// Collects the eliminations of `val` among the cells peering both `idx1`
/// and `idx2`, in ascending cell order.
pub(crate) fn get_common_peer_eliminations(
    board: &LogicalBoard,
    idx1: usize,
    idx2: usize,
    val: u8,
) -> (r: Vec<Elimination>)
    requires
        board.wf(),
        idx1 < 81,
        idx2 < 81,
        1 <= val <= 9,
    ensures
        r@ == common_peer_elims(*board, idx1 as int, idx2 as int, val),
{
    let mut r: Vec<Elimination> = Vec::new();
    let mut j: usize = 0;
    while j < 81
        invariant
            board.wf(),
            idx1 < 81,
            idx2 < 81,
            1 <= val <= 9,
            j <= 81,
            r@ == common_peer_elims_upto(*board, idx1 as int, idx2 as int, val, j as int),
        decreases 81 - j,
    {
        if are_peers(idx1, j) && are_peers(idx2, j) && board.cells[j] == 0 && crate::masks::mask_has(
            board.candidates[j],
            val,
        ) {
            r.push(Elimination { index: j, value: val });
        }
        j = j + 1;
    }
    r
}

/// Count of remaining candidate bits of cell `i`, plus one if the cell is
/// still empty. A solving step always lowers the sum of these weights.
pub open spec fn cell_weight(b: LogicalBoard, i: int) -> nat {
    count_bits(b.candidates@[i]) + if b.cells@[i] == 0 {
        1nat
    } else {
        0nat
    }
}

/// Sum of the cell weights of cells 0..k.
pub open spec fn measure_upto(b: LogicalBoard, k: int) -> nat
    decreases k,
{
    if k <= 0 {
        0
    } else {
        measure_upto(b, k - 1) + cell_weight(b, k - 1)
    }
}

/// Sum of all cell weights: the termination measure of the solving loop.
pub open spec fn board_measure(b: LogicalBoard) -> nat {
    measure_upto(b, 81)
}

/// Pointwise bounded cell weights give a bounded measure.
pub proof fn lemma_measure_le(b1: LogicalBoard, b2: LogicalBoard, k: int)
    requires
        forall|i: int| 0 <= i < k ==> cell_weight(b1, i) <= cell_weight(b2, i),
    ensures
        measure_upto(b1, k) <= measure_upto(b2, k),
    decreases k,
{
    if k > 0 {
        lemma_measure_le(b1, b2, k - 1);
    }
}

/// A strict weight drop at one cell gives a strict measure drop.
pub proof fn lemma_measure_lt(b1: LogicalBoard, b2: LogicalBoard, j: int, k: int)
    requires
        forall|i: int| 0 <= i < k ==> cell_weight(b1, i) <= cell_weight(b2, i),
        0 <= j < k,
        cell_weight(b1, j) < cell_weight(b2, j),
    ensures
        measure_upto(b1, k) < measure_upto(b2, k),
    decreases k,
{
    if j == k - 1 {
        lemma_measure_le(b1, b2, k - 1);
    } else {
        lemma_measure_lt(b1, b2, j, k - 1);
    }
}

/// A mask containing digit `d` counts strictly more bits than it does with
/// `d` removed.
proof fn lemma_count_split_digit(m: u16, d: int)
    requires
        1 <= d <= 9,
        has_digit(m, d),
    ensures
        count_bits(m & !(1u16 << ((d - 1) as u16))) < count_bits(m),
{
    let j = (d - 1) as u16;
    crate::masks::lemma_count_split(m, j, 9);
}



/// A full conflict-free grid that the candidate state still admits: it
/// agrees with every placed digit, and every empty cell still holds the
/// grid's digit among its candidates.
pub open spec fn admits_solution(b: LogicalBoard, sol: Seq<u8>) -> bool {
    &&& sol.len() == 81
    &&& (forall|i: int| 0 <= i < 81 ==> 1 <= #[trigger] sol[i] <= 9)
    &&& grid_valid(sol)
    &&& (forall|i: int| 0 <= i < 81 && b.cells@[i] != 0 ==> sol[i] == b.cells@[i])
    &&& (forall|i: int|
        0 <= i < 81 && b.cells@[i] == 0 ==> has_digit(b.candidates@[i], #[trigger] sol[i] as int))
}

/// Soundness of the naked-single technique: on a board that still admits a
/// full conflict-free solution, a naked-single step places exactly the
/// solution's digit, and no elimination of the step removes the digit the
/// solution puts at that cell.
pub proof fn lemma_naked_single_step_sound(b: LogicalBoard, s: SolvingStep, sol: Seq<u8>)
    requires
        b.wf(),
        admits_solution(b, sol),
        basic::some_naked_single_step(b, s),
    ensures
        forall|n: int|
            0 <= n < s.placements@.len() ==> (#[trigger] s.placements@[n]).value
                == sol[s.placements@[n].index as int],
        forall|n: int|
            0 <= n < s.eliminations@.len() ==> (#[trigger] s.eliminations@[n]).value
                != sol[s.eliminations@[n].index as int],
{
    let i = choose|i: int|
        #![trigger basic::naked_single_step_at(b, i, s)]
        basic::is_naked_single(b, i) && basic::naked_single_step_at(b, i, s);
    let v = s.placements@[0].value;
    crate::masks::lemma_count_one_unique(b.candidates@[i], v as int);
    assert(sol[i] == v);
    lemma_peer_elims_valid(b, i, v, 81);
    assert forall|n: int|
        0 <= n < s.eliminations@.len() implies (#[trigger] s.eliminations@[n]).value
        != sol[s.eliminations@[n].index as int] by {
        let j = s.eliminations@[n].index as int;
        assert(is_peer(i, j));
        assert(sol[i] != sol[j]);
    }
}

/// No technique of the catalog applies to this board: no naked or hidden
/// single, no naked or hidden subset, no intersection, no fish, no wing, no
/// single-digit chain and no unique rectangle.
pub open spec fn no_step_available(b: LogicalBoard) -> bool {
    &&& !(exists|i: int| basic::is_naked_single(b, i))
    &&& !(exists|u: int, d: int| basic::is_hidden_single(b, u, d))
    &&& !(exists|u: int, k1: int, k2: int| subsets::naked_pair_at(b, u, k1, k2))
    &&& !(exists|u: int, k1: int, k2: int, k3: int| subsets::naked_triple_at(b, u, k1, k2, k3))
    &&& !(exists|bx: int, d: int, line: int, is_row: bool|
        intersection::pointing_at(b, bx, d, line, is_row))
    &&& !(exists|u: int, d1: int, d2: int| subsets::hidden_pair_at(b, u, d1, d2))
    &&& !(exists|u: int, d1: int, d2: int, d3: int| subsets::hidden_triple_at(b, u, d1, d2, d3))
    &&& !(exists|line: int, is_row: bool, d: int, bx: int|
        intersection::claiming_at(b, line, is_row, d, bx))
    &&& !(exists|d: int| fish::fish_exists_for_digit(b, d))
    &&& !(exists|pivot: int, p1: int, p2: int| wings::xy_at(b, pivot, p1, p2))
    &&& !(exists|pivot: int, p1: int, p2: int| wings::xyz_at(b, pivot, p1, p2))
    &&& !(exists|d: int, rb: bool, l1: int, l2: int, c1: int, c2: int|
        single_digit::sky_at(b, d, rb, l1, l2, c1, c2))
    &&& !(exists|d: int, r: int, c: int, sr: int, sc: int| single_digit::kite_at(b, d, r, c, sr, sc))
    &&& !(exists|r1: int, r2: int, c1: int, c2: int, t: int, m: u16|
        uniqueness::ur_at(b, r1, r2, c1, c2, t, m))
    &&& !(exists|i1: int, i2: int, sel: int, u: int| wings::ww_at(b, i1, i2, sel, u))
}

/// The step was produced by one of the catalog's techniques: it carries the
/// technique's name and exactly the placements and eliminations that some
/// instance of the pattern justifies on this board.
pub open spec fn catalog_step(b: LogicalBoard, s: SolvingStep) -> bool {
    ||| basic::some_naked_single_step(b, s)
    ||| basic::some_hidden_single_step(b, s)
    ||| subsets::some_naked_pair_step(b, s)
    ||| subsets::some_naked_triple_step(b, s)
    ||| intersection::some_pointing_step(b, s)
    ||| subsets::some_hidden_pair_step(b, s)
    ||| subsets::some_hidden_triple_step(b, s)
    ||| intersection::some_claiming_step(b, s)
    ||| fish::some_fish_step(b, s)
    ||| wings::some_xy_step(b, s)
    ||| wings::some_xyz_step(b, s)
    ||| single_digit::some_sky_step(b, s)
    ||| single_digit::some_kite_step(b, s)
    ||| uniqueness::some_ur_step(b, s)
    ||| wings::some_ww_step(b, s)
}

/// Every catalog step classifies at a proper level: its technique name is in
/// the catalog's closed vocabulary, so it is never unrated.
pub proof fn lemma_catalog_step_rated(b: LogicalBoard, s: SolvingStep)
    requires
        catalog_step(b, s),
    ensures
        spec_level(s.technique@) != TechniqueLevel::Unrated,
{
    if basic::some_naked_single_step(b, s) {
        let i = choose|i: int|
            #![trigger basic::naked_single_step_at(b, i, s)]
            basic::is_naked_single(b, i) && basic::naked_single_step_at(b, i, s);
        assert(s.technique@ == "NakedSingle"@);
    } else if basic::some_hidden_single_step(b, s) {
        let (target, d) = choose|target: int, d: u8|
            #![trigger basic::hidden_single_step_at(b, target, d, s)]
            (exists|u2: int| basic::is_hidden_single(b, u2, d as int))
                && basic::hidden_single_step_at(b, target, d, s);
        assert(s.technique@ == "HiddenSingle"@);
    } else if subsets::some_naked_pair_step(b, s) {
        let (u, k1, k2) = choose|u: int, k1: int, k2: int|
            #![trigger subsets::naked_pair_at(b, u, k1, k2)]
            subsets::naked_pair_at(b, u, k1, k2) && subsets::naked_subset_step_at(
                b,
                u,
                seq![k1 as usize, k2 as usize],
                b.candidates@[unit_cell(u, k1)],
                "NakedPair"@,
                s,
            );
        assert(s.technique@ == "NakedPair"@);
    } else if subsets::some_naked_triple_step(b, s) {
        let (u, k1, k2, k3) = choose|u: int, k1: int, k2: int, k3: int|
            #![trigger subsets::naked_triple_at(b, u, k1, k2, k3)]
            subsets::naked_triple_at(b, u, k1, k2, k3) && subsets::naked_subset_step_at(
                b,
                u,
                seq![k1 as usize, k2 as usize, k3 as usize],
                b.candidates@[unit_cell(u, k1)] | b.candidates@[unit_cell(u, k2)]
                    | b.candidates@[unit_cell(u, k3)],
                "NakedTriple"@,
                s,
            );
        assert(s.technique@ == "NakedTriple"@);
    } else if intersection::some_pointing_step(b, s) {
        let (bx, d, line, is_row) = choose|bx: int, d: u8, line: int, is_row: bool|
            #![trigger intersection::pointing_step_at(b, bx, d, line, is_row, s)]
            intersection::pointing_at(b, bx, d as int, line, is_row)
                && intersection::pointing_step_at(b, bx, d, line, is_row, s);
        assert(s.technique@ == "PointingPair"@ || s.technique@ == "PointingTriple"@);
    } else if subsets::some_hidden_pair_step(b, s) {
        let (u, d1, d2) = choose|u: int, d1: int, d2: int|
            #![trigger subsets::hidden_pair_at(b, u, d1, d2)]
            subsets::hidden_pair_at(b, u, d1, d2) && subsets::hidden_subset_step_at(
                b,
                u,
                (1u16 << ((d1 - 1) as u16)) | (1u16 << ((d2 - 1) as u16)),
                "HiddenPair"@,
                s,
            );
        assert(s.technique@ == "HiddenPair"@);
    } else if subsets::some_hidden_triple_step(b, s) {
        let (u, d1, d2, d3) = choose|u: int, d1: int, d2: int, d3: int|
            #![trigger subsets::hidden_triple_at(b, u, d1, d2, d3)]
            subsets::hidden_triple_at(b, u, d1, d2, d3) && subsets::hidden_subset_step_at(
                b,
                u,
                (1u16 << ((d1 - 1) as u16)) | (1u16 << ((d2 - 1) as u16)) | (1u16 << ((d3
                    - 1) as u16)),
                "HiddenTriple"@,
                s,
            );
        assert(s.technique@ == "HiddenTriple"@);
    } else if intersection::some_claiming_step(b, s) {
        let (line, is_row, d, bx) = choose|line: int, is_row: bool, d: u8, bx: int|
            #![trigger intersection::claiming_step_at(b, line, is_row, d, bx, s)]
            intersection::claiming_at(b, line, is_row, d as int, bx)
                && intersection::claiming_step_at(b, line, is_row, d, bx, s);
        assert(s.technique@ == "ClaimingCandidate"@);
    } else if fish::some_fish_step(b, s) {
        let (d, size, rb, ls) = choose|d: int, size: int, rb: bool, ls: Seq<usize>|
            #![trigger fish::fish_at(b, d, size, rb, ls), fish::fish_step_at(b, d as u8, rb, ls, fish::fish_name(size), s)]
            fish::fish_at(b, d, size, rb, ls) && fish::fish_step_at(
                b,
                d as u8,
                rb,
                ls,
                fish::fish_name(size),
                s,
            );
        if size == 2 {
            assert(s.technique@ == "X-Wing"@);
        } else if size == 3 {
            assert(s.technique@ == "Swordfish"@);
        } else {
            assert(s.technique@ == "Jellyfish"@);
        }
    } else if wings::some_xy_step(b, s) {
        let (pivot, p1, p2) = choose|pivot: int, p1: int, p2: int|
            #![trigger wings::xy_step_at(b, pivot, p1, p2, s)]
            wings::xy_at(b, pivot, p1, p2) && wings::xy_step_at(b, pivot, p1, p2, s);
        assert(s.technique@ == "XY-Wing"@);
    } else if wings::some_xyz_step(b, s) {
        let (pivot, p1, p2) = choose|pivot: int, p1: int, p2: int|
            #![trigger wings::xyz_step_at(b, pivot, p1, p2, s)]
            wings::xyz_at(b, pivot, p1, p2) && wings::xyz_step_at(b, pivot, p1, p2, s);
        assert(s.technique@ == "XYZ-Wing"@);
    } else if single_digit::some_sky_step(b, s) {
        let (d, rb, l1, l2, c1, c2) = choose|d: u8, rb: bool, l1: int, l2: int, c1: int, c2: int|
            #![trigger single_digit::sky_step_at(b, d, rb, l1, l2, c1, c2, s)]
            single_digit::sky_at(b, d as int, rb, l1, l2, c1, c2) && single_digit::sky_step_at(
                b,
                d,
                rb,
                l1,
                l2,
                c1,
                c2,
                s,
            );
        assert(s.technique@ == "Skyscraper"@);
    } else if single_digit::some_kite_step(b, s) {
        let (d, r, c, sr, sc) = choose|d: u8, r: int, c: int, sr: int, sc: int|
            #![trigger single_digit::kite_step_at(b, d, r, c, sr, sc, s)]
            single_digit::kite_at(b, d as int, r, c, sr, sc) && single_digit::kite_step_at(
                b,
                d,
                r,
                c,
                sr,
                sc,
                s,
            );
        assert(s.technique@ == "TwoStringKite"@);
    } else if uniqueness::some_ur_step(b, s) {
        let (r1, r2, c1, c2, t, m) = choose|r1: int, r2: int, c1: int, c2: int, t: int, m: u16|
            #![trigger uniqueness::ur_step_at(b, r1, r2, c1, c2, t, m, s)]
            uniqueness::ur_at(b, r1, r2, c1, c2, t, m) && uniqueness::ur_step_at(
                b,
                r1,
                r2,
                c1,
                c2,
                t,
                m,
                s,
            );
        assert(s.technique@ == "UniqueRectangleType1"@);
    } else {
        let (i1, i2, sel, u) = choose|i1: int, i2: int, sel: int, u: int|
            #![trigger wings::ww_step_at(b, i1, i2, sel, u, s)]
            wings::ww_at(b, i1, i2, sel, u) && wings::ww_step_at(b, i1, i2, sel, u, s);
        assert(s.technique@ == "W-Wing"@);
    }
}


/// The step is the first match of the fixed, difficulty-ascending priority
/// order: a finder's step is produced only when every earlier finder in the
/// order has no instance at all on this board.
pub open spec fn priority_step(b: LogicalBoard, s: SolvingStep) -> bool {
    if exists|i: int| basic::is_naked_single(b, i) {
        basic::some_naked_single_step(b, s)
    } else if exists|u: int, d: int| basic::is_hidden_single(b, u, d) {
        basic::some_hidden_single_step(b, s)
    } else if exists|u: int, k1: int, k2: int| subsets::naked_pair_at(b, u, k1, k2) {
        subsets::some_naked_pair_step(b, s)
    } else if exists|u: int, k1: int, k2: int, k3: int| subsets::naked_triple_at(b, u, k1, k2, k3) {
        subsets::some_naked_triple_step(b, s)
    } else if exists|bx: int, d: int, line: int, is_row: bool|
        intersection::pointing_at(b, bx, d, line, is_row) {
        intersection::some_pointing_step(b, s)
    } else if exists|u: int, d1: int, d2: int| subsets::hidden_pair_at(b, u, d1, d2) {
        subsets::some_hidden_pair_step(b, s)
    } else if exists|u: int, d1: int, d2: int, d3: int| subsets::hidden_triple_at(b, u, d1, d2, d3) {
        subsets::some_hidden_triple_step(b, s)
    } else if exists|line: int, is_row: bool, d: int, bx: int|
        intersection::claiming_at(b, line, is_row, d, bx) {
        intersection::some_claiming_step(b, s)
    } else if exists|d: int| fish::fish_exists_for_digit(b, d) {
        fish::some_fish_step(b, s)
    } else if exists|pivot: int, p1: int, p2: int| wings::xy_at(b, pivot, p1, p2) {
        wings::some_xy_step(b, s)
    } else if exists|pivot: int, p1: int, p2: int| wings::xyz_at(b, pivot, p1, p2) {
        wings::some_xyz_step(b, s)
    } else if exists|d: int, rb: bool, l1: int, l2: int, c1: int, c2: int|
        single_digit::sky_at(b, d, rb, l1, l2, c1, c2) {
        single_digit::some_sky_step(b, s)
    } else if exists|d: int, r: int, c: int, sr: int, sc: int|
        single_digit::kite_at(b, d, r, c, sr, sc) {
        single_digit::some_kite_step(b, s)
    } else if exists|r1: int, r2: int, c1: int, c2: int, t: int, m: u16|
        uniqueness::ur_at(b, r1, r2, c1, c2, t, m) {
        uniqueness::some_ur_step(b, s)
    } else if exists|i1: int, i2: int, sel: int, u: int| wings::ww_at(b, i1, i2, sel, u) {
        wings::some_ww_step(b, s)
    } else {
        false
    }
}

/// Tries the finders in the fixed difficulty-ascending priority order and
/// returns the first match: singles, naked subsets, pointing, hidden
/// subsets, claiming, fish, XY/XYZ wings, skyscraper, kite, unique
/// rectangle, W-Wing.
pub fn find_next_step(board: &LogicalBoard) -> (r: Option<SolvingStep>)
    requires
        board.wf(),
    ensures
        r matches Some(s) ==> step_sound(*board, s),
        r matches Some(s) ==> catalog_step(*board, s),
        r matches Some(s) ==> priority_step(*board, s),
        (r is None) <==> no_step_available(*board),
{
    if let Some(s) = basic::find_naked_single(board) {
        return Some(s);
    }
    if let Some(s) = basic::find_hidden_single(board) {
        return Some(s);
    }
    if let Some(s) = subsets::find_naked_pair(board) {
        return Some(s);
    }
    if let Some(s) = subsets::find_naked_triple(board) {
        return Some(s);
    }
    if let Some(s) = intersection::find_pointing_subset(board) {
        return Some(s);
    }
    if let Some(s) = subsets::find_hidden_pair(board) {
        return Some(s);
    }
    if let Some(s) = subsets::find_hidden_triple(board) {
        return Some(s);
    }
    if let Some(s) = intersection::find_claiming_candidates(board) {
        return Some(s);
    }
    if let Some(s) = fish::find_fish_techniques(board) {
        return Some(s);
    }
    if let Some(s) = wings::find_xy_wing(board) {
        return Some(s);
    }
    if let Some(s) = wings::find_xyz_wing(board) {
        return Some(s);
    }
    if let Some(s) = single_digit::find_skyscraper(board) {
        return Some(s);
    }
    if let Some(s) = single_digit::find_two_string_kite(board) {
        return Some(s);
    }
    if let Some(s) = uniqueness::find_unique_rectangle_type_1(board) {
        return Some(s);
    }
    if let Some(s) = wings::find_w_wing(board) {
        return Some(s);
    }
    None
}




/// The digits below `d` that no peer of cell `i` holds in grid `g`, as a
/// candidate mask.
pub open spec fn unseen_mask_upto(g: Seq<u8>, i: int, d: int) -> u16
    decreases d,
{
    if d <= 0 {
        0u16
    } else {
        unseen_mask_upto(g, i, d - 1) | (if grid_sees_digit(g, i, d) {
            0u16
        } else {
            1u16 << ((d - 1) as u16)
        })
    }
}

/// The candidate mask a fresh board computes for an empty cell `i` of grid
/// `g`: every digit no peer holds.
pub open spec fn unseen_mask(g: Seq<u8>, i: int) -> u16 {
    unseen_mask_upto(g, i, 9)
}

/// The candidate state a fresh board computes for grid `g`: empty masks on
/// filled cells, the unseen digits elsewhere.
pub open spec fn initial_candidates(g: Seq<u8>) -> Seq<u16> {
    Seq::new(
        81,
        |i: int|
            if g[i] != 0 {
                0u16
            } else {
                unseen_mask(g, i)
            },
    )
}

/// The bits of the unseen mask are the digits no peer holds.
pub proof fn lemma_unseen_mask_bits(g: Seq<u8>, i: int, n: int)
    requires
        n <= 9,
    ensures
        unseen_mask_upto(g, i, n) < 512,
        forall|p: int|
            #[trigger] crate::masks::mask_bit(unseen_mask_upto(g, i, n), p) <==> (0 <= p < n
                && !grid_sees_digit(g, i, p + 1)),
    decreases n,
{
    lemma_mask_extremes();
    if n > 0 {
        lemma_unseen_mask_bits(g, i, n - 1);
        let rest = unseen_mask_upto(g, i, n - 1);
        if grid_sees_digit(g, i, n) {
            assert(rest | 0u16 == rest) by (bit_vector);
        } else {
            crate::masks::lemma_mask_single((n - 1) as u16);
            crate::masks::lemma_mask_or(rest, 1u16 << ((n - 1) as u16));
            crate::masks::lemma_mask_or_bound(rest, 1u16 << ((n - 1) as u16));
        }
    }
}

/// The grid after a step's placements: at most one cell is filled.
pub open spec fn apply_cells(cells: Seq<u8>, s: SolvingStep) -> Seq<u8> {
    if s.placements@.len() > 0 {
        cells.update(s.placements@[0].index as int, s.placements@[0].value)
    } else {
        cells
    }
}

/// The candidate masks after placing `value` at `index`: the placed cell's
/// set empties and the digit leaves every peer's set.
pub open spec fn place_candidates(cand: Seq<u16>, index: int, value: u8) -> Seq<u16> {
    Seq::new(
        cand.len(),
        |j: int|
            if j == index {
                0u16
            } else if is_peer(index, j) {
                cand[j] & !(1u16 << ((value - 1) as u16))
            } else {
                cand[j]
            },
    )
}

/// The candidate masks after the first `n` eliminations of the step were
/// applied in order, each clearing one bit.
pub open spec fn elims_applied(cand: Seq<u16>, elims: Seq<Elimination>, n: int) -> Seq<u16>
    decreases n,
{
    if n <= 0 {
        cand
    } else {
        let prev = elims_applied(cand, elims, n - 1);
        let e = elims[n - 1];
        prev.update(e.index as int, prev[e.index as int] & !(1u16 << ((e.value - 1) as u16)))
    }
}

/// The candidate masks after a whole step: the placement's pruning first,
/// then the step's eliminations in order.
pub open spec fn apply_candidates(cand: Seq<u16>, s: SolvingStep) -> Seq<u16> {
    let placed = if s.placements@.len() > 0 {
        place_candidates(cand, s.placements@[0].index as int, s.placements@[0].value)
    } else {
        cand
    };
    elims_applied(placed, s.eliminations@, s.eliminations@.len() as int)
}

/// The step does not contradict the solution `sol`: every placement puts the
/// solution's digit, and no elimination removes the solution's digit from
/// its cell.
pub open spec fn step_avoids_solution(s: SolvingStep, sol: Seq<u8>) -> bool {
    &&& (forall|n: int|
        0 <= n < s.placements@.len() ==> (#[trigger] s.placements@[n]).value
            == sol[s.placements@[n].index as int])
    &&& (forall|n: int|
        0 <= n < s.eliminations@.len() ==> (#[trigger] s.eliminations@[n]).value
            != sol[s.eliminations@[n].index as int])
}

/// Applies a found step to the board: its placement first, then its
/// eliminations. Cells only go from empty to filled, candidate sets only
/// shrink, and the board's measure strictly decreases.
pub fn apply_step(board: &mut LogicalBoard, step: &SolvingStep)
    requires
        old(board).wf(),
        step_sound(*old(board), *step),
    ensures
        final(board).wf(),
        final(board).cells@ == apply_cells(old(board).cells@, *step),
        final(board).candidates@ == apply_candidates(old(board).candidates@, *step),
        forall|i: int|
            0 <= i < 81 && old(board).cells@[i] != 0 ==> final(board).cells@[i] == old(
                board,
            ).cells@[i],
        forall|i: int, d: int| final(board).has_cand(i, d) ==> old(board).has_cand(i, d),
        board_measure(*final(board)) < board_measure(*old(board)),
        forall|sol: Seq<u8>|
            #[trigger] admits_solution(*old(board), sol) && step_avoids_solution(*step, sol)
                ==> admits_solution(*final(board), sol),
{
    let ghost placed = step.placements@.len() > 0;
    if step.placements.len() > 0 {
        let index = step.placements[0].index;
        let value = step.placements[0].value;
        let ghost pre = *board;
        let _ = board.set_cell(index, value);
        proof {
            lemma_mask_extremes();
            lemma_count_upto_none(0u16, 9);
            assert forall|i: int| 0 <= i < 81 implies cell_weight(*board, i) <= cell_weight(
                pre,
                i,
            ) by {
                if i != index {
                    if is_peer(index as int, i) {
                        lemma_mask_clear(pre.candidates@[i], (value - 1) as u16);
                        lemma_count_upto_le(
                            pre.candidates@[i] & !(1u16 << ((value - 1) as u16)),
                            pre.candidates@[i],
                            9,
                        );
                    }
                }
            }
            assert(cell_weight(*board, index as int) < cell_weight(pre, index as int));
            lemma_measure_lt(*board, pre, index as int, 81);
            assert forall|i: int, d: int| board.has_cand(i, d) implies pre.has_cand(i, d) by {
                if is_peer(index as int, i) {
                    lemma_mask_clear(pre.candidates@[i], (value - 1) as u16);
                }
            }
            assert(board.candidates@ =~= place_candidates(pre.candidates@, index as int, value));
            assert forall|sol: Seq<u8>|
                #[trigger] admits_solution(pre, sol) && step_avoids_solution(*step, sol)
                    implies admits_solution(*board, sol) by {
                assert(sol[index as int] == value);
                assert forall|i: int|
                    0 <= i < 81 && board.cells@[i] == 0 implies has_digit(
                    board.candidates@[i],
                    #[trigger] sol[i] as int,
                ) by {
                    if is_peer(index as int, i) {
                        lemma_mask_clear(pre.candidates@[i], (value - 1) as u16);
                        assert(sol[i] != sol[index as int]);
                    }
                }
            }
        }
    }
    let ghost mid = *board;
    let mut k: usize = 0;
    while k < step.eliminations.len()
        invariant
            board.wf(),
            step_sound(*old(board), *step),
            k <= step.eliminations@.len(),
            placed == (step.placements@.len() > 0),
            forall|i: int|
                0 <= i < 81 && old(board).cells@[i] != 0 ==> board.cells@[i] == old(
                    board,
                ).cells@[i],
            forall|i: int, d: int| board.has_cand(i, d) ==> old(board).has_cand(i, d),
            board_measure(*board) <= board_measure(*old(board)),
            placed ==> board_measure(*board) < board_measure(*old(board)),
            !placed && k == 0 ==> *board == *old(board),
            !placed && k > 0 ==> board_measure(*board) < board_measure(*old(board)),
            board.cells@ == apply_cells(old(board).cells@, *step),
            board.candidates@ == elims_applied(mid.candidates@, step.eliminations@, k as int),
            mid.candidates@ == (if placed {
                place_candidates(
                    old(board).candidates@,
                    step.placements@[0].index as int,
                    step.placements@[0].value,
                )
            } else {
                old(board).candidates@
            }),
            forall|sol: Seq<u8>|
                #[trigger] admits_solution(*old(board), sol) && step_avoids_solution(*step, sol)
                    ==> admits_solution(*board, sol),
        decreases step.eliminations@.len() - k,
    {
        let ghost pre = *board;
        let index = step.eliminations[k].index;
        let value = step.eliminations[k].value;
        proof {
            assert(elimination_valid(*old(board), step.eliminations@[k as int]));
        }
        board.eliminate(index, value);
        proof {
            if !placed && k == 0 {
                assert(pre.has_cand(index as int, value as int));
            }
            assert forall|sol: Seq<u8>|
                #[trigger] admits_solution(*old(board), sol) && step_avoids_solution(*step, sol)
                    implies admits_solution(*board, sol) by {
                lemma_mask_clear(pre.candidates@[index as int], (value - 1) as u16);
                assert(sol[index as int] != value);
                assert forall|i: int|
                    0 <= i < 81 && board.cells@[i] == 0 implies has_digit(
                    board.candidates@[i],
                    #[trigger] sol[i] as int,
                ) by {
                    assert(pre.has_cand(i, sol[i] as int) || pre.cells@[i] != 0);
                }
            }
        }
        k = k + 1;
    }
    proof {
        if !placed {
            assert(step.eliminations@.len() > 0);
        }
    }
}


/// A complete run of the fixpoint orchestrator: the first board is the
/// fresh candidate state of the grid; each step is the priority order's
/// first match on its board; each following board is that step applied
/// (placement, then eliminations); the last board admits no step at all;
/// and the output grid is the last board's cells.
pub open spec fn solve_trace(
    g: Seq<u8>,
    boards: Seq<LogicalBoard>,
    steps: Seq<SolvingStep>,
    out: Seq<u8>,
) -> bool {
    &&& boards.len() == steps.len() + 1
    &&& boards[0].wf()
    &&& boards[0].cells@ == g
    &&& boards[0].candidates@ == initial_candidates(g)
    &&& (forall|k: int| 0 <= k < steps.len() ==> priority_step(#[trigger] boards[k], steps[k]))
    &&& (forall|k: int| 0 <= k < steps.len() ==> step_sound(boards[k], #[trigger] steps[k]))
    &&& (forall|k: int|
        0 <= k < steps.len() ==> (#[trigger] boards[k + 1]).cells@ == apply_cells(
            boards[k].cells@,
            steps[k],
        ))
    &&& (forall|k: int|
        0 <= k < steps.len() ==> (#[trigger] boards[k + 1]).candidates@ == apply_candidates(
            boards[k].candidates@,
            steps[k],
        ))
    &&& no_step_available(boards[boards.len() - 1])
    &&& out == boards[boards.len() - 1].cells@
}

/// Some run of the orchestrator on grid `g` produced these steps and this
/// output grid.
pub open spec fn solved_with_trace(g: Seq<u8>, steps: Seq<SolvingStep>, out: Seq<u8>) -> bool {
    exists|boards: Seq<LogicalBoard>| solve_trace(g, boards, steps, out)
}

/// Solve the board by repeatedly applying logical techniques and return the
/// steps. The orchestrator commits the first technique match, restarts the
/// scan from the top of the priority list, and stops at the fixpoint where
/// no technique applies. Pre-filled cells are never changed.
pub fn solve_with_steps(initial_board: &Board) -> (r: (Vec<SolvingStep>, Board))
    requires
        initial_board.wf(),
    ensures
        r.1.wf(),
        forall|i: int|
            0 <= i < 81 && initial_board.cells@[i] != 0 ==> r.1.cells@[i]
                == initial_board.cells@[i],
        forall|k: int|
            0 <= k < r.0@.len() ==> spec_level(#[trigger] r.0@[k].technique@)
                != TechniqueLevel::Unrated,
        solved_with_trace(initial_board.cells@, r.0@, r.1.cells@),
{
    let ghost g = initial_board.cells@;
    let mut board = LogicalBoard::from_board(initial_board);
    let mut steps: Vec<SolvingStep> = Vec::new();
    let ghost mut boards: Seq<LogicalBoard> = seq![board];
    loop
        invariant
            board.wf(),
            initial_board.wf(),
            g == initial_board.cells@,
            forall|i: int|
                0 <= i < 81 && initial_board.cells@[i] != 0 ==> board.cells@[i]
                    == initial_board.cells@[i],
            forall|k: int|
                0 <= k < steps@.len() ==> spec_level(#[trigger] steps@[k].technique@)
                    != TechniqueLevel::Unrated,
            boards.len() == steps@.len() + 1,
            boards[0].wf(),
            boards[0].cells@ == g,
            boards[0].candidates@ == initial_candidates(g),
            boards[boards.len() - 1] == board,
            forall|k: int|
                0 <= k < steps@.len() ==> priority_step(#[trigger] boards[k], steps@[k]),
            forall|k: int| 0 <= k < steps@.len() ==> step_sound(boards[k], #[trigger] steps@[k]),
            forall|k: int|
                0 <= k < steps@.len() ==> (#[trigger] boards[k + 1]).cells@ == apply_cells(
                    boards[k].cells@,
                    steps@[k],
                ),
            forall|k: int|
                0 <= k < steps@.len() ==> (#[trigger] boards[k + 1]).candidates@
                    == apply_candidates(boards[k].candidates@, steps@[k]),
        ensures
            board.wf(),
            forall|i: int|
                0 <= i < 81 && initial_board.cells@[i] != 0 ==> board.cells@[i]
                    == initial_board.cells@[i],
            forall|k: int|
                0 <= k < steps@.len() ==> spec_level(#[trigger] steps@[k].technique@)
                    != TechniqueLevel::Unrated,
            boards.len() == steps@.len() + 1,
            boards[0].wf(),
            boards[0].cells@ == g,
            boards[0].candidates@ == initial_candidates(g),
            boards[boards.len() - 1] == board,
            forall|k: int|
                0 <= k < steps@.len() ==> priority_step(#[trigger] boards[k], steps@[k]),
            forall|k: int| 0 <= k < steps@.len() ==> step_sound(boards[k], #[trigger] steps@[k]),
            forall|k: int|
                0 <= k < steps@.len() ==> (#[trigger] boards[k + 1]).cells@ == apply_cells(
                    boards[k].cells@,
                    steps@[k],
                ),
            forall|k: int|
                0 <= k < steps@.len() ==> (#[trigger] boards[k + 1]).candidates@
                    == apply_candidates(boards[k].candidates@, steps@[k]),
            no_step_available(board),
        decreases board_measure(board),
    {
        let next = find_next_step(&board);
        match next {
            Option::Some(step) => {
                let ghost pre = board;
                proof {
                    lemma_catalog_step_rated(board, step);
                }
                apply_step(&mut board, &step);
                steps.push(step);
                proof {
                    boards = boards.push(board);
                    assert forall|k: int|
                        0 <= k < steps@.len() implies priority_step(
                        #[trigger] boards[k],
                        steps@[k],
                    ) && step_sound(boards[k], steps@[k]) by {
                        if k < steps@.len() - 1 {
                            assert(boards[k] == boards.drop_last()[k]);
                            assert(steps@[k] == steps@.drop_last()[k]);
                        } else {
                            assert(boards[k] == pre);
                            assert(steps@[k] == step);
                        }
                    }
                    assert forall|k: int|
                        0 <= k < steps@.len() implies (#[trigger] boards[k + 1]).cells@
                        == apply_cells(boards[k].cells@, steps@[k]) && boards[k + 1].candidates@
                        == apply_candidates(boards[k].candidates@, steps@[k]) by {
                        if k < steps@.len() - 1 {
                            assert(boards[k] == boards.drop_last()[k]);
                            assert(boards[k + 1] == boards.drop_last()[k + 1]);
                            assert(steps@[k] == steps@.drop_last()[k]);
                        } else {
                            assert(boards[k] == pre && boards[k + 1] == board);
                            assert(steps@[k] == step);
                        }
                    }
                }
            },
            Option::None => {
                break ;
            },
        }
    }
    proof {
        assert(solve_trace(g, boards, steps@, board.cells@));
        assert(solved_with_trace(g, steps@, board.cells@));
    }
    (steps, Board { cells: board.cells })
}

/// The difficulty level of a technique name: the catalog is closed, and any
/// other name is unrated.
pub open spec fn spec_level(t: Seq<char>) -> TechniqueLevel {
    if t == "NakedSingle"@ || t == "HiddenSingle"@ {
        TechniqueLevel::Basic
    } else if t == "PointingPair"@ || t == "PointingTriple"@ || t == "NakedPair"@ || t
        == "NakedTriple"@ || t == "HiddenPair"@ || t == "HiddenTriple"@ || t
        == "ClaimingCandidate"@ {
        TechniqueLevel::Intermediate
    } else if t == "X-Wing"@ || t == "Swordfish"@ || t == "XY-Wing"@ || t == "XYZ-Wing"@ || t
        == "Skyscraper"@ || t == "TwoStringKite"@ {
        TechniqueLevel::Advanced
    } else if t == "Jellyfish"@ || t == "UniqueRectangleType1"@ || t == "W-Wing"@ {
        TechniqueLevel::Master
    } else {
        TechniqueLevel::Unrated
    }
}

/// The larger of two levels in the difficulty order.
pub open spec fn level_max(a: TechniqueLevel, b: TechniqueLevel) -> TechniqueLevel {
    if level_rank(b) > level_rank(a) {
        b
    } else {
        a
    }
}

/// The hardest level among the classified steps.
pub open spec fn max_level_of(steps: Seq<SolvingStep>) -> TechniqueLevel
    decreases steps.len(),
{
    if steps.len() == 0 {
        TechniqueLevel::Unrated
    } else {
        level_max(max_level_of(steps.drop_last()), spec_level(steps.last().technique@))
    }
}

/// How many steps classify at level `l`.
pub open spec fn count_at_level(steps: Seq<SolvingStep>, l: TechniqueLevel) -> nat
    decreases steps.len(),
{
    if steps.len() == 0 {
        0
    } else {
        count_at_level(steps.drop_last(), l) + if spec_level(steps.last().technique@) == l {
            1nat
        } else {
            0nat
        }
    }
}

/// Classifies one technique name.
fn technique_level(name: &String) -> (l: TechniqueLevel)
    ensures
        l == spec_level(name@),
{
    if *name == "NakedSingle".to_owned() || *name == "HiddenSingle".to_owned() {
        TechniqueLevel::Basic
    } else if *name == "PointingPair".to_owned() || *name == "PointingTriple".to_owned() || *name
        == "NakedPair".to_owned() || *name == "NakedTriple".to_owned() || *name
        == "HiddenPair".to_owned() || *name == "HiddenTriple".to_owned() || *name
        == "ClaimingCandidate".to_owned() {
        TechniqueLevel::Intermediate
    } else if *name == "X-Wing".to_owned() || *name == "Swordfish".to_owned() || *name
        == "XY-Wing".to_owned() || *name == "XYZ-Wing".to_owned() || *name
        == "Skyscraper".to_owned() || *name == "TwoStringKite".to_owned() {
        TechniqueLevel::Advanced
    } else if *name == "Jellyfish".to_owned() || *name == "UniqueRectangleType1".to_owned()
        || *name == "W-Wing".to_owned() {
        TechniqueLevel::Master
    } else {
        TechniqueLevel::Unrated
    }
}

/// The rank of a level, as an executable value.
fn level_rank_of(l: TechniqueLevel) -> (r: u8)
    ensures
        r == level_rank(l),
{
    match l {
        TechniqueLevel::Unrated => 0,
        TechniqueLevel::Basic => 1,
        TechniqueLevel::Intermediate => 2,
        TechniqueLevel::Advanced => 3,
        TechniqueLevel::Master => 4,
    }
}

/// Analyzes the steps to count technique levels: the hardest level used and
/// the number of steps at the intermediate, advanced and master tiers.
pub fn analyze_difficulty(steps: &Vec<SolvingStep>) -> (stats: DifficultyStats)
    ensures
        stats.max_level == max_level_of(steps@),
        stats.intermediate_count == count_at_level(steps@, TechniqueLevel::Intermediate),
        stats.advanced_count == count_at_level(steps@, TechniqueLevel::Advanced),
        stats.master_count == count_at_level(steps@, TechniqueLevel::Master),
{
    let mut stats = DifficultyStats {
        max_level: TechniqueLevel::Unrated,
        intermediate_count: 0,
        advanced_count: 0,
        master_count: 0,
    };
    let mut i: usize = 0;
    while i < steps.len()
        invariant
            i <= steps@.len(),
            stats.max_level == max_level_of(steps@.take(i as int)),
            stats.intermediate_count == count_at_level(
                steps@.take(i as int),
                TechniqueLevel::Intermediate,
            ),
            stats.advanced_count == count_at_level(steps@.take(i as int), TechniqueLevel::Advanced),
            stats.master_count == count_at_level(steps@.take(i as int), TechniqueLevel::Master),
            stats.intermediate_count <= i,
            stats.advanced_count <= i,
            stats.master_count <= i,
        decreases steps@.len() - i,
    {
        let level = technique_level(&steps[i].technique);
        if level_rank_of(level) > level_rank_of(stats.max_level) {
            stats.max_level = level;
        }
        match level {
            TechniqueLevel::Intermediate => {
                stats.intermediate_count = stats.intermediate_count + 1;
            },
            TechniqueLevel::Advanced => {
                stats.advanced_count = stats.advanced_count + 1;
            },
            TechniqueLevel::Master => {
                stats.master_count = stats.master_count + 1;
            },
            _ => {},
        }
        proof {
            assert(steps@.take(i as int + 1).drop_last() =~= steps@.take(i as int));
            assert(steps@.take(i as int + 1).last() == steps@[i as int]);
        }
        i = i + 1;
    }
    proof {
        assert(steps@.take(steps@.len() as int) =~= steps@);
    }
    stats
}

/// Classification is consistent with the total order on levels: every
/// step's individually classified level is bounded by the sequence's
/// hardest level, the hardest level is attained by some step whenever the
/// sequence is non-empty, and appending a step with an unrecognized
/// technique name never raises the hardest level.
pub proof fn lemma_max_level_consistency(steps: Seq<SolvingStep>)
    ensures
        forall|k: int|
            0 <= k < steps.len() ==> level_rank(
                spec_level(#[trigger] steps[k].technique@),
            ) <= level_rank(max_level_of(steps)),
        steps.len() > 0 ==> exists|k: int|
            0 <= k < steps.len() && spec_level(#[trigger] steps[k].technique@) == max_level_of(
                steps,
            ),
        forall|s: SolvingStep|
            spec_level(s.technique@) == TechniqueLevel::Unrated ==> max_level_of(
                #[trigger] steps.push(s),
            ) == max_level_of(steps),
    decreases steps.len(),
{
    if steps.len() > 0 {
        lemma_max_level_consistency(steps.drop_last());
        let prev = steps.drop_last();
        assert forall|k: int|
            0 <= k < steps.len() implies level_rank(spec_level(#[trigger] steps[k].technique@))
            <= level_rank(max_level_of(steps)) by {
            if k < steps.len() - 1 {
                assert(steps[k] == prev[k]);
            }
        }
        if steps.len() == 1 {
            assert(spec_level(steps[0].technique@) == max_level_of(steps));
        } else {
            if max_level_of(steps) == spec_level(steps.last().technique@) {
                assert(spec_level(steps[steps.len() - 1].technique@) == max_level_of(steps));
            } else {
                let k = choose|k: int|
                    0 <= k < prev.len() && spec_level(#[trigger] prev[k].technique@)
                        == max_level_of(prev);
                assert(steps[k] == prev[k]);
                assert(spec_level(steps[k].technique@) == max_level_of(steps));
            }
        }
    }
    assert forall|s: SolvingStep|
        spec_level(s.technique@) == TechniqueLevel::Unrated implies max_level_of(
        #[trigger] steps.push(s),
    ) == max_level_of(steps) by {
        assert(steps.push(s).drop_last() =~= steps);
        assert(steps.push(s).last() == s);
    }
}

} // verus!

//! The plain 9x9 grid: 81 digits in reading order, 0 for an empty cell.

use vstd::prelude::*;

use crate::geometry::is_peer;

verus! {

/// A well-formed grid: 81 cells, each holding 0 (empty) or a digit 1..=9.
pub open spec fn grid_wf(cells: Seq<u8>) -> bool {
    &&& cells.len() == 81
    &&& forall|i: int| 0 <= i < 81 ==> cells[i] <= 9
}

/// A grid with no conflict: no two peers hold the same digit.
pub open spec fn grid_valid(cells: Seq<u8>) -> bool {
    forall|i: int, j: int|
        #[trigger] is_peer(i, j) && cells[i] != 0 ==> cells[i] != cells[j]
}

/// A full conflict-free grid that extends `g`: every cell holds a digit, no
/// two peers clash, and every clue of `g` is kept.
pub open spec fn full_solution_of(sol: Seq<u8>, g: Seq<u8>) -> bool {
    &&& sol.len() == 81
    &&& (forall|i: int| 0 <= i < 81 ==> 1 <= #[trigger] sol[i] <= 9)
    &&& grid_valid(sol)
    &&& (forall|i: int| 0 <= i < 81 && g[i] != 0 ==> sol[i] == g[i])
}

/// Clearing cells of a conflict-free grid keeps it conflict-free.
pub proof fn lemma_valid_subgrid(cells: Seq<u8>, sub: Seq<u8>)
    requires
        grid_valid(cells),
        cells.len() == 81,
        sub.len() == 81,
        forall|i: int| 0 <= i < 81 ==> sub[i] == cells[i] || sub[i] == 0,
    ensures
        grid_valid(sub),
{
    assert forall|x: int, y: int|
        #[trigger] is_peer(x, y) && sub[x] != 0 implies sub[x] != sub[y] by {
        assert(sub[x] == cells[x]);
        if sub[y] != 0 {
            assert(sub[y] == cells[y]);
        }
    }
}

/// A plain Sudoku grid, row-major; 0 marks an empty cell.
#[derive(Clone, Debug)]
pub struct Board {
    /// The 81 cells, each 0 or a digit 1..=9.
    pub cells: Vec<u8>,
}

impl Board {
    /// Whether the grid has 81 cells holding digits 0..=9.
    pub open spec fn wf(&self) -> bool {
        grid_wf(self.cells@)
    }

    /// An empty board.
    pub fn new_empty() -> (b: Board)
        ensures
            b.wf(),
            forall|i: int| 0 <= i < 81 ==> b.cells@[i] == 0,
    {
        Board { cells: vec![0u8; 81] }
    }

    /// A copy of this board.
    pub fn duplicate(&self) -> (b: Board)
        ensures
            b.cells@ == self.cells@,
    {
        let mut cells: Vec<u8> = Vec::new();
        let mut i: usize = 0;
        while i < self.cells.len()
            invariant
                i <= self.cells@.len(),
                cells@ =~= self.cells@.take(i as int),
            decreases self.cells@.len() - i,
        {
            cells.push(self.cells[i]);
            proof {
                assert(cells@ =~= self.cells@.take(i as int + 1));
            }
            i = i + 1;
        }
        proof {
            assert(cells@ =~= self.cells@);
        }
        Board { cells }
    }

    /// Whether every cell holds a digit.
    pub fn is_full(&self) -> (r: bool)
        requires
            self.wf(),
        ensures
            r == (forall|i: int| 0 <= i < 81 ==> self.cells@[i] != 0),
    {
        let mut i: usize = 0;
        while i < 81
            invariant
                self.wf(),
                i <= 81,
                forall|j: int| 0 <= j < i ==> self.cells@[j] != 0,
            decreases 81 - i,
        {
            if self.cells[i] == 0 {
                return false;
            }
            i = i + 1;
        }
        true
    }
}

} // verus!

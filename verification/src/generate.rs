//! Puzzle generation: produce a full random solution, remove clues
//! symmetrically while the solution stays unique, and repeat until the
//! puzzle's logical difficulty matches the requested target.

use vstd::prelude::*;

use rand::seq::SliceRandom;

use crate::board::{Board, grid_valid, full_solution_of};
use crate::logical_solver::{
    solve_with_steps,
    analyze_difficulty,
    DifficultyStats,
    TechniqueLevel,
};
use crate::solver::{count_solutions, solve_randomized, empty_count, empty_count_upto};

verus! {

/// The grid with every cell empty.
pub open spec fn all_empty_grid() -> Seq<u8> {
    Seq::new(81, |i: int| 0u8)
}

/// Represents the target difficulty of the generated puzzle.
#[derive(Debug, Clone, Copy, PartialEq, Eq, Structural)]
pub enum Difficulty {
    Easy,
    Medium,
    Hard,
    Expert,
    Extreme,
}

/// Relies on rand's `SliceRandom::shuffle`: an in-place Fisher-Yates
/// permutation of the slice, driven by `rand::rng()`, the thread-local
/// generator. The result holds exactly the elements it started with,
/// rearranged.
#[verifier::external_body]
fn shuffle_values<T>(v: &mut Vec<T>)
    ensures
        final(v)@.len() == old(v)@.len(),
        final(v)@.to_multiset() == old(v)@.to_multiset(),
        forall|x: T| final(v)@.contains(x) <==> old(v)@.contains(x),
{
    v.as_mut_slice().shuffle(&mut rand::rng());
}

/// Number of filled cells of the board.
fn count_filled(board: &Board) -> (n: usize)
    requires
        board.wf(),
    ensures
        n + empty_count(board.cells@) == 81,
{
    let mut n: usize = 0;
    let mut i: usize = 0;
    while i < 81
        invariant
            board.wf(),
            i <= 81,
            n + empty_count_upto(board.cells@, i as int) == i,
        decreases 81 - i,
    {
        if board.cells[i] != 0 {
            n = n + 1;
        }
        i = i + 1;
    }
    n
}

/// Generate a complete, solved Sudoku board: the backtracking solver fills
/// an empty grid trying digits in a shuffled order.
fn generate_full_solution() -> (b: Board)
    ensures
        b.wf(),
        grid_valid(b.cells@),
        (exists|sol: Seq<u8>| full_solution_of(sol, all_empty_grid())) ==> (forall|i: int|
            0 <= i < 81 ==> b.cells@[i] != 0),
{
    let mut digits: Vec<u8> = Vec::new();
    let mut d: u8 = 1;
    while d <= 9
        invariant
            1 <= d <= 10,
            digits@.len() == d - 1,
            forall|k: int| 0 <= k < digits@.len() ==> #[trigger] digits@[k] == k + 1,
        decreases 10 - d,
    {
        digits.push(d);
        d = d + 1;
    }
    let ghost pre_digits = digits@;
    shuffle_values(&mut digits);
    proof {
        assert forall|k: int| 0 <= k < 9 implies 1 <= #[trigger] digits@[k] <= 9 by {
            assert(digits@.contains(digits@[k]));
        }
        assert forall|d: u8| 1 <= d <= 9 implies digits@.contains(d) by {
            assert(pre_digits[d - 1] == d);
            assert(pre_digits.contains(d));
        }
    }
    let mut board = Board::new_empty();
    proof {
        assert(grid_valid(board.cells@));
        assert(board.cells@ =~= all_empty_grid());
    }
    let _ = solve_randomized(&mut board, &digits);
    board
}

/// Creates a "minimal" puzzle from a solution by removing as many clue
/// pairs `(i, 80 - i)` as possible while the solution stays unique, trying
/// the pairs in a shuffled order.
///
/// * `min_clues`: when given, minimization stops once the clue count drops
///   to this bound, which is used to generate easier puzzles with more
///   clues.
fn create_minimal_puzzle_symmetric(solution: &Board, min_clues: Option<usize>) -> (r: Board)
    requires
        solution.wf(),
    ensures
        r.wf(),
        forall|i: int|
            0 <= i < 81 ==> (r.cells@[i] == solution.cells@[i] || r.cells@[i] == 0),
        grid_valid(solution.cells@) ==> grid_valid(r.cells@),
{
    let mut puzzle = solution.duplicate();
    let mut indices: Vec<usize> = Vec::new();
    let mut i: usize = 0;
    while i < 41
        invariant
            i <= 41,
            indices@.len() == i,
            forall|k: int| 0 <= k < indices@.len() ==> #[trigger] indices@[k] == k,
        decreases 41 - i,
    {
        indices.push(i);
        i = i + 1;
    }
    shuffle_values(&mut indices);
    proof {
        assert forall|k: int| 0 <= k < indices@.len() implies #[trigger] indices@[k] < 41 by {
            assert(indices@.contains(indices@[k]));
        }
    }
    let mut n: usize = 0;
    while n < indices.len()
        invariant
            solution.wf(),
            puzzle.wf(),
            n <= indices@.len(),
            forall|k: int| 0 <= k < indices@.len() ==> #[trigger] indices@[k] < 41,
            forall|i0: int|
                0 <= i0 < 81 ==> (puzzle.cells@[i0] == solution.cells@[i0] || puzzle.cells@[i0]
                    == 0),
        decreases indices@.len() - n,
    {
        if let Some(min) = min_clues {
            if count_filled(&puzzle) <= min {
                proof {
                    if grid_valid(solution.cells@) {
                        crate::board::lemma_valid_subgrid(solution.cells@, puzzle.cells@);
                    }
                }
                return puzzle;
            }
        }
        let index = indices[n];
        let sym_index = 80 - index;
        let val1 = puzzle.cells[index];
        let val2 = puzzle.cells[sym_index];
        puzzle.cells.set(index, 0);
        puzzle.cells.set(sym_index, 0);
        if count_solutions(&puzzle) != 1 {
            puzzle.cells.set(index, val1);
            puzzle.cells.set(sym_index, val2);
            proof {
                assert(puzzle.cells@ =~= puzzle.cells@);
            }
        }
        n = n + 1;
    }
    proof {
        if grid_valid(solution.cells@) {
            crate::board::lemma_valid_subgrid(solution.cells@, puzzle.cells@);
        }
    }
    puzzle
}

/// Whether a solve outcome meets the criteria of a target difficulty: which
/// hardest level is required, which tier counts must be reached, and
/// whether the puzzle must (or must not) be fully solvable by logic alone.
pub open spec fn spec_difficulty_criteria(
    difficulty: Difficulty,
    solvable: bool,
    stats: DifficultyStats,
) -> bool {
    match difficulty {
        Difficulty::Easy => solvable && stats.max_level == TechniqueLevel::Basic,
        Difficulty::Medium => solvable && stats.max_level == TechniqueLevel::Intermediate
            && stats.intermediate_count >= 5,
        Difficulty::Hard => solvable && stats.max_level == TechniqueLevel::Advanced
            && stats.advanced_count >= 3 && stats.intermediate_count >= 5,
        Difficulty::Expert => solvable && stats.master_count >= 2 && stats.advanced_count >= 3
            && stats.intermediate_count >= 5,
        Difficulty::Extreme => !solvable,
    }
}

/// Decides whether a solve outcome meets a target difficulty's criteria.
pub fn difficulty_criteria(difficulty: Difficulty, solvable: bool, stats: &DifficultyStats) -> (r:
    bool)
    ensures
        r == spec_difficulty_criteria(difficulty, solvable, *stats),
{
    match difficulty {
        Difficulty::Easy => solvable && stats.max_level == TechniqueLevel::Basic,
        Difficulty::Medium => solvable && stats.max_level == TechniqueLevel::Intermediate
            && stats.intermediate_count >= 5,
        Difficulty::Hard => solvable && stats.max_level == TechniqueLevel::Advanced
            && stats.advanced_count >= 3 && stats.intermediate_count >= 5,
        Difficulty::Expert => solvable && stats.master_count >= 2 && stats.advanced_count >= 3
            && stats.intermediate_count >= 5,
        Difficulty::Extreme => !solvable,
    }
}

/// Check if a puzzle matches the criteria for a specific difficulty: solve
/// it logically, classify the steps and apply the difficulty's criteria.
fn matches_difficulty(puzzle: &Board, difficulty: Difficulty) -> (r: bool)
    requires
        puzzle.wf(),
{
    let (steps, solved_board) = solve_with_steps(puzzle);
    let is_logically_solvable = solved_board.is_full();
    let stats = analyze_difficulty(&steps);
    difficulty_criteria(difficulty, is_logically_solvable, &stats)
}

/// Whether any cell of the board holds a digit.
fn has_clue(board: &Board) -> (r: bool)
    requires
        board.wf(),
    ensures
        r == (exists|i: int| 0 <= i < 81 && board.cells@[i] != 0),
{
    let mut i: usize = 0;
    while i < 81
        invariant
            board.wf(),
            i <= 81,
            forall|j: int| 0 <= j < i ==> board.cells@[j] == 0,
        decreases 81 - i,
    {
        if board.cells[i] != 0 {
            return true;
        }
        i = i + 1;
    }
    false
}

/// Generates a puzzle of a specific difficulty: repeatedly minimize a fresh
/// random solution until the result matches the difficulty's criteria,
/// keeps a unique solution, and is neither empty nor full. For easy puzzles
/// minimization stops early so that more clues remain. The retry loop
/// carries a fuel bound far beyond any realistic number of attempts; if it
/// ever ran out, the last full solution would be returned instead.
pub fn generate(difficulty: Difficulty) -> (r: Board)
    ensures
        r.wf(),
        grid_valid(r.cells@),
        (exists|sol: Seq<u8>| full_solution_of(sol, all_empty_grid())) ==> ((exists|sol: Seq<u8>|
            full_solution_of(sol, r.cells@)) && (exists|i: int|
            0 <= i < 81 && r.cells@[i] != 0) && (forall|s1: Seq<u8>, s2: Seq<u8>|
            full_solution_of(s1, r.cells@) && full_solution_of(s2, r.cells@) ==> s1 == s2)),
{
    let min_clues: Option<usize> = if difficulty == Difficulty::Easy {
        Some(32)
    } else {
        None
    };
    let mut fuel: u64 = 18446744073709551615u64;
    loop
        decreases fuel,
    {
        let solution = generate_full_solution();
        let puzzle = create_minimal_puzzle_symmetric(&solution, min_clues);
        if matches_difficulty(&puzzle, difficulty) && count_solutions(&puzzle) == 1 && has_clue(
            &puzzle,
        ) && !puzzle.is_full() {
            proof {
                assert forall|s1: Seq<u8>, s2: Seq<u8>|
                    full_solution_of(s1, puzzle.cells@) && full_solution_of(
                        s2,
                        puzzle.cells@,
                    ) implies s1 == s2 by {
                    if s1 != s2 {
                        assert(false);
                    }
                }
            }
            return puzzle;
        }
        if fuel == 0 {
            proof {
                if exists|sol: Seq<u8>| full_solution_of(sol, all_empty_grid()) {
                    assert(solution.cells@[0] != 0);
                    assert(full_solution_of(solution.cells@, solution.cells@));
                    assert forall|s1: Seq<u8>, s2: Seq<u8>|
                        full_solution_of(s1, solution.cells@) && full_solution_of(
                            s2,
                            solution.cells@,
                        ) implies s1 == s2 by {
                        assert forall|i: int| 0 <= i < 81 implies s1[i] == s2[i] by {
                            assert(s1[i] == solution.cells@[i] && s2[i] == solution.cells@[i]);
                        }
                        assert(s1 =~= s2);
                    }
                }
            }
            return solution;
        }
        fuel = fuel - 1;
    }
}

} // verus!

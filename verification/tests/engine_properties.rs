use wasudoku::board::Board;
use wasudoku::generate::{difficulty_criteria, Difficulty};
use wasudoku::geometry::{are_peers, unit_cell_at};
use wasudoku::logical_solver::DifficultyStats;
use wasudoku::logical_solver::{self, LogicalBoard, TechniqueLevel, analyze_difficulty};
use wasudoku::masks::{mask_count, mask_to_vec};
use wasudoku::solver;
use wasudoku::types::SolvingStep;

fn parse_cells(s: &str) -> Board {
    let mut cells: Vec<u8> = Vec::new();
    for ch in s.chars() {
        match ch.to_digit(10) {
            Some(d) => cells.push(d as u8),
            None => cells.push(0),
        }
    }
    assert_eq!(cells.len(), 81);
    Board { cells }
}

// The classic example grid and its unique solution, used as an independent
// reference for soundness checks.
const CLASSIC: &str =
    "53..7....6..195....98....6.8...6...34..8.3..17...2...6.6....28....419..5....8..79";
const CLASSIC_SOLUTION: &str =
    "534678912672195348198342567859761423426853791713924856961537284287419635345286179";

#[test]
fn test_result_grid_extends_input() {
    // Cells only go from empty to filled: every pre-filled cell keeps its
    // value in the result grid.
    let input = parse_cells(CLASSIC);
    let (_, result) = logical_solver::solve_with_steps(&input);
    for i in 0..81 {
        if input.cells[i] != 0 {
            assert_eq!(result.cells[i], input.cells[i]);
        }
    }
}

#[test]
fn test_placements_only_on_empty_cells() {
    // No two steps ever place into the same cell, and no step places into a
    // pre-filled cell.
    let input = parse_cells(CLASSIC);
    let (steps, _) = logical_solver::solve_with_steps(&input);
    let mut filled: Vec<bool> = input.cells.iter().map(|&c| c != 0).collect();
    for step in &steps {
        for p in &step.placements {
            assert!(!filled[p.index], "placement on an already filled cell");
            filled[p.index] = true;
        }
    }
}

#[test]
fn test_solve_again_at_fixpoint_adds_no_steps() {
    // Idempotence at fixpoint: running the solver on the result grid of a
    // prior run finds nothing further to do.
    for fixture in [
        CLASSIC,
        "4..2....9..16...7..8.4....17.4....9.....4.....9....7.65....3.2..2...61..9....4..7",
        ".....8..5..97...1..1.....687.51..........3..46......57.6...5.9..8........4.9.....",
    ] {
        let input = parse_cells(fixture);
        let (_, result) = logical_solver::solve_with_steps(&input);
        let (steps_again, result_again) = logical_solver::solve_with_steps(&result);
        assert_eq!(steps_again.len(), 0, "fixpoint must yield zero further steps");
        assert_eq!(result_again.cells, result.cells);
    }
}

fn steps_equal(a: &[SolvingStep], b: &[SolvingStep]) -> bool {
    if a.len() != b.len() {
        return false;
    }
    for (x, y) in a.iter().zip(b.iter()) {
        if x.technique != y.technique {
            return false;
        }
        if x.placements.len() != y.placements.len()
            || x.eliminations.len() != y.eliminations.len()
            || x.cause.len() != y.cause.len()
        {
            return false;
        }
        for (p, q) in x.placements.iter().zip(y.placements.iter()) {
            if p.index != q.index || p.value != q.value {
                return false;
            }
        }
        for (p, q) in x.eliminations.iter().zip(y.eliminations.iter()) {
            if p.index != q.index || p.value != q.value {
                return false;
            }
        }
        for (p, q) in x.cause.iter().zip(y.cause.iter()) {
            if p.index != q.index || p.candidates != q.candidates {
                return false;
            }
        }
    }
    true
}

#[test]
fn test_identical_input_gives_identical_steps() {
    // Determinism: the same grid yields a bit-for-bit identical step
    // sequence across runs.
    let input = parse_cells(
        "4..2....9..16...7..8.4....17.4....9.....4.....9....7.65....3.2..2...61..9....4..7",
    );
    let (steps1, result1) = logical_solver::solve_with_steps(&input);
    let (steps2, result2) = logical_solver::solve_with_steps(&input);
    assert!(steps_equal(&steps1, &steps2));
    assert_eq!(result1.cells, result2.cells);
}

#[test]
fn test_eliminations_never_remove_solution_digits() {
    // Soundness against a known unique-solution grid: no elimination ever
    // removes the digit the true solution places at that cell, and every
    // placement agrees with the solution.
    let input = parse_cells(CLASSIC);
    let solution = parse_cells(CLASSIC_SOLUTION);
    assert_eq!(solver::count_solutions(&input), 1);
    let (steps, result) = logical_solver::solve_with_steps(&input);
    for step in &steps {
        for e in &step.eliminations {
            assert_ne!(
                e.value, solution.cells[e.index],
                "an elimination removed the solution digit at cell {}",
                e.index
            );
        }
        for p in &step.placements {
            assert_eq!(p.value, solution.cells[p.index]);
        }
    }
    for i in 0..81 {
        if result.cells[i] != 0 {
            assert_eq!(result.cells[i], solution.cells[i]);
        }
    }
}

#[test]
fn test_classifier_level_of_each_name() {
    let name_level: [(&str, TechniqueLevel); 19] = [
        ("NakedSingle", TechniqueLevel::Basic),
        ("HiddenSingle", TechniqueLevel::Basic),
        ("PointingPair", TechniqueLevel::Intermediate),
        ("PointingTriple", TechniqueLevel::Intermediate),
        ("NakedPair", TechniqueLevel::Intermediate),
        ("NakedTriple", TechniqueLevel::Intermediate),
        ("HiddenPair", TechniqueLevel::Intermediate),
        ("HiddenTriple", TechniqueLevel::Intermediate),
        ("ClaimingCandidate", TechniqueLevel::Intermediate),
        ("X-Wing", TechniqueLevel::Advanced),
        ("Swordfish", TechniqueLevel::Advanced),
        ("XY-Wing", TechniqueLevel::Advanced),
        ("XYZ-Wing", TechniqueLevel::Advanced),
        ("Skyscraper", TechniqueLevel::Advanced),
        ("TwoStringKite", TechniqueLevel::Advanced),
        ("Jellyfish", TechniqueLevel::Master),
        ("UniqueRectangleType1", TechniqueLevel::Master),
        ("W-Wing", TechniqueLevel::Master),
        ("SomethingElse", TechniqueLevel::Unrated),
    ];
    for (name, level) in name_level {
        let steps = vec![SolvingStep {
            technique: name.to_string(),
            placements: vec![],
            eliminations: vec![],
            cause: vec![],
        }];
        let stats = analyze_difficulty(&steps);
        assert_eq!(stats.max_level, level, "level of {}", name);
    }
}

#[test]
fn test_analyze_empty_steps_is_unrated() {
    let stats = analyze_difficulty(&vec![]);
    assert_eq!(stats.max_level, TechniqueLevel::Unrated);
    assert_eq!(stats.intermediate_count, 0);
    assert_eq!(stats.advanced_count, 0);
    assert_eq!(stats.master_count, 0);
}

#[test]
fn test_unknown_technique_never_raises_max_level() {
    let steps = vec![
        SolvingStep {
            technique: "NakedSingle".to_string(),
            placements: vec![],
            eliminations: vec![],
            cause: vec![],
        },
        SolvingStep {
            technique: "NotATechnique".to_string(),
            placements: vec![],
            eliminations: vec![],
            cause: vec![],
        },
    ];
    let stats = analyze_difficulty(&steps);
    assert_eq!(stats.max_level, TechniqueLevel::Basic);
}

#[test]
fn test_difficulty_criteria_each_variant() {
    let stats = |max, ic, ac, mc| DifficultyStats {
        max_level: max,
        intermediate_count: ic,
        advanced_count: ac,
        master_count: mc,
    };

    assert!(difficulty_criteria(
        Difficulty::Easy,
        true,
        &stats(TechniqueLevel::Basic, 0, 0, 0)
    ));
    assert!(!difficulty_criteria(
        Difficulty::Easy,
        true,
        &stats(TechniqueLevel::Intermediate, 5, 0, 0)
    ));
    assert!(difficulty_criteria(
        Difficulty::Medium,
        true,
        &stats(TechniqueLevel::Intermediate, 5, 0, 0)
    ));
    assert!(!difficulty_criteria(
        Difficulty::Medium,
        true,
        &stats(TechniqueLevel::Intermediate, 4, 0, 0)
    ));
    assert!(difficulty_criteria(
        Difficulty::Hard,
        true,
        &stats(TechniqueLevel::Advanced, 5, 3, 0)
    ));
    assert!(!difficulty_criteria(
        Difficulty::Hard,
        false,
        &stats(TechniqueLevel::Advanced, 5, 3, 0)
    ));
    assert!(difficulty_criteria(
        Difficulty::Expert,
        true,
        &stats(TechniqueLevel::Master, 5, 3, 2)
    ));
    assert!(!difficulty_criteria(
        Difficulty::Expert,
        true,
        &stats(TechniqueLevel::Master, 5, 3, 1)
    ));
    assert!(difficulty_criteria(
        Difficulty::Extreme,
        false,
        &stats(TechniqueLevel::Unrated, 0, 0, 0)
    ));
    assert!(!difficulty_criteria(
        Difficulty::Extreme,
        true,
        &stats(TechniqueLevel::Unrated, 0, 0, 0)
    ));
}

#[test]
fn test_from_board_initial_candidates() {
    // An empty cell starts with every digit not placed among its peers.
    let mut board = Board { cells: vec![0u8; 81] };
    board.cells[1] = 5; // same row as cell 0
    board.cells[9] = 7; // same column as cell 0
    board.cells[10] = 3; // same box as cell 0
    board.cells[80] = 9; // unrelated to cell 0
    let lb = LogicalBoard::from_board(&board);
    // 5, 7 and 3 are pruned; 9 is not a peer of cell 0, so it stays.
    assert_eq!(mask_to_vec(lb.candidates[0]), vec![1, 2, 4, 6, 8, 9]);
    // Filled cells have no candidates.
    assert_eq!(lb.candidates[1], 0);
}

#[test]
fn test_set_cell_prunes_peers_and_self() {
    let board = Board { cells: vec![0u8; 81] };
    let mut lb = LogicalBoard::from_board(&board);
    assert_eq!(lb.candidates[0], 0x1ff);
    let ok = lb.set_cell(0, 4);
    assert!(ok);
    assert_eq!(lb.cells[0], 4);
    assert_eq!(lb.candidates[0], 0);
    // Every peer of cell 0 lost digit 4; others kept it.
    for j in 0..81 {
        if are_peers(0, j) {
            assert_eq!(lb.candidates[j] & (1 << 3), 0, "peer {} still holds 4", j);
        } else if j != 0 {
            assert_ne!(lb.candidates[j] & (1 << 3), 0, "cell {} lost 4", j);
        }
    }
}

#[test]
fn test_eliminate_clears_one_bit_and_is_idempotent() {
    let board = Board { cells: vec![0u8; 81] };
    let mut lb = LogicalBoard::from_board(&board);
    lb.eliminate(40, 6);
    assert_eq!(lb.candidates[40], 0x1ff & !(1 << 5));
    lb.eliminate(40, 6);
    assert_eq!(lb.candidates[40], 0x1ff & !(1 << 5));
    // No other cell was touched.
    assert_eq!(lb.candidates[39], 0x1ff);
}

#[test]
fn test_mask_helpers() {
    assert_eq!(mask_to_vec(0), Vec::<u8>::new());
    assert_eq!(mask_to_vec(0b101), vec![1, 3]);
    assert_eq!(mask_to_vec(0x1ff), vec![1, 2, 3, 4, 5, 6, 7, 8, 9]);
    assert_eq!(mask_count(0), 0);
    assert_eq!(mask_count(0b101), 2);
    assert_eq!(mask_count(0x1ff), 9);
}

#[test]
fn test_geometry_tables() {
    // Rows, columns and boxes list their cells in reading order.
    assert_eq!(unit_cell_at(0, 4), 4);
    assert_eq!(unit_cell_at(8, 0), 72);
    assert_eq!(unit_cell_at(9, 2), 18);
    assert_eq!(unit_cell_at(17, 8), 80);
    assert_eq!(unit_cell_at(18, 0), 0);
    assert_eq!(unit_cell_at(22, 0), 30);
    assert_eq!(unit_cell_at(26, 8), 80);
    // The peer relation: same row, same column, same box, and nothing else.
    assert!(are_peers(0, 8));
    assert!(are_peers(0, 72));
    assert!(are_peers(0, 10));
    assert!(!are_peers(0, 0));
    assert!(!are_peers(0, 80));
    // Every cell has exactly 20 peers.
    for i in 0..81 {
        let count = (0..81).filter(|&j| are_peers(i, j)).count();
        assert_eq!(count, 20);
    }
}

#[test]
fn test_count_solutions_of_known_grids() {
    // The classic grid has exactly one solution; its solution is full and
    // counts as one; the empty grid has many, capped at two.
    let puzzle = parse_cells(CLASSIC);
    assert_eq!(solver::count_solutions(&puzzle), 1);
    let solution = parse_cells(CLASSIC_SOLUTION);
    assert_eq!(solver::count_solutions(&solution), 1);
    let empty = Board { cells: vec![0u8; 81] };
    assert_eq!(solver::count_solutions(&empty), 2);
}

#[test]
fn test_solve_randomized_canonical_order() {
    // With digits tried in ascending order, backtracking from the empty
    // grid produces the lexicographically first solution, whose top row is
    // 1..9 in order.
    let mut board = Board { cells: vec![0u8; 81] };
    let order: Vec<u8> = vec![1, 2, 3, 4, 5, 6, 7, 8, 9];
    let solved = solver::solve_randomized(&mut board, &order);
    assert!(solved);
    assert!(board.cells.iter().all(|&c| c != 0));
    assert_eq!(&board.cells[0..9], &[1, 2, 3, 4, 5, 6, 7, 8, 9]);
    // The result is conflict-free.
    for i in 0..81 {
        for j in 0..81 {
            if are_peers(i, j) {
                assert_ne!(board.cells[i], board.cells[j]);
            }
        }
    }
}

#[test]
fn test_first_step_of_classic_grid_is_exact() {
    // The first step on the classic grid: the engine scans cells in order
    // and reports the first naked or hidden single deterministically.
    let input = parse_cells(CLASSIC);
    let (steps, result) = logical_solver::solve_with_steps(&input);
    assert!(!steps.is_empty());
    // The classic grid is easy: it solves completely.
    assert!(result.cells.iter().all(|&c| c != 0));
    // Every step of an easy grid is a single.
    for step in &steps {
        assert!(step.technique == "NakedSingle" || step.technique == "HiddenSingle");
        assert_eq!(step.placements.len(), 1);
    }
    // 51 empty cells means exactly 51 placements.
    let placed: usize = steps.iter().map(|s| s.placements.len()).sum();
    assert_eq!(placed, 51);
}

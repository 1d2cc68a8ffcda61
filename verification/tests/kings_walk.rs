use std::collections::HashSet;

use kings_walk::KingsWalkError;
use kings_walk::State;

#[test]
fn hillclimb_should_solve_n_eq_4_high_density() {
    // Make a new state
    let mut state = State::new(vec![9, 8, 7, 6, 0, 3, 4, 0, 0, 0, 0, 0, 12, 0, 0, 0], 4).unwrap();
    // climb
    state.hillclimb();
    // assert that the max score was reached
    assert_eq!(state.score(), state.max_score());
}

#[test]
fn hillclimb_should_solve_n_eq_4_low_density() {
    // Make a new state
    let mut state = State::new(vec![0, 0, 0, 0, 0, 3, 4, 0, 0, 0, 0, 0, 12, 0, 0, 0], 4).unwrap();
    // climb
    state.hillclimb();
    // assert that the max score was reached
    assert_eq!(state.score(), state.max_score());
}

#[test]
fn hillclimb_should_solve_n_eq_3() {
    // Make a new state
    let mut state = State::new(vec![0, 0, 1, 0, 2, 0, 9, 0, 0], 3).unwrap();
    // climb
    state.hillclimb();
    // assert that the max score was reached
    assert_eq!(state.score(), state.max_score());
}

#[test]
fn step_should_work() {
    // Make a new state
    let mut state = State::new(vec![0, 0, 1, 0, 2, 0, 9, 0, 0], 3).unwrap();
    // Ensure it initialized as expected
    assert_eq!(vec![3, 4, 1, 5, 2, 6, 9, 7, 8], state.board);
    // Calculate the starting score
    let start_score = state.score();
    // Find a better assignment
    let end_score = state.step(start_score);
    // Ensure it was better
    assert!(start_score < end_score);
    // See that the board is arranged as expected.
    // 			start	end
    // 			3 4 1	3 5 1
    // 			5 2 6	4 2 6
    //			9 7 8	9 7 8
    // score:	7		6
    assert_eq!(state.board, vec![3, 5, 1, 4, 2, 6, 9, 7, 8]);
    assert_eq!(end_score, 7);
}

#[test]
fn score_should_work2() {
    // Make a new state
    let state = State::new(vec![3, 4, 1, 8, 2, 5, 9, 7, 6], 3).unwrap();
    // 3 4 1
    // 8 2 5
    // 9 7 6
    // total: 8
    assert_eq!(state.score(), state.max_score());
}

#[test]
fn score_should_work1() {
    // Make a new state
    let state = State::new(vec![0, 0, 1, 0, 2, 0, 9, 0, 0], 3).unwrap();
    // ensure the board is properly setup
    assert_eq!(vec![3, 4, 1, 5, 2, 6, 9, 7, 8], state.board);
    // 3 4 1	1-2-3-4-5 	score: 4
    // 5 2 6	6-7-8		score: 2
    // 9 7 8	9			score: 0
    // 						total: 6
    assert_eq!(state.score(), 6);
}

#[test]
fn random_start_should_only_have_unique_values() {
    // Make a new state
    let mut state = State::new(vec![0, 0, 1, 0, 2, 0, 9, 0, 0], 3).unwrap();
    // Randomize it
    state.random_start();
    // ensure each value is unique and in the range [1,n*n]
    let mut seen = HashSet::new();
    for x in &state.board {
        assert!(!seen.contains(x));
        assert!(*x > 0 && *x <= 9);
        seen.insert(*x);
    }
}

#[test]
fn new_states_should_only_have_unique_values() {
    // Make a new state
    let state = State::new(vec![0, 0, 1, 0, 2, 0, 9, 0, 0], 3).unwrap();
    // ensure the board is properly setup
    assert_eq!(vec![3, 4, 1, 5, 2, 6, 9, 7, 8], state.board);
}

#[test]
fn construction_rejects_wrong_length() {
    // An 8-element input on a 3-wide grid is one cell short.
    let result = State::new(vec![0, 0, 1, 0, 2, 0, 9, 0], 3);
    assert_eq!(result.unwrap_err(), KingsWalkError::BoardLength);
}

#[test]
fn construction_scenario_board_score_and_max() {
    let state = State::new(vec![0, 0, 1, 0, 2, 0, 9, 0, 0], 3).unwrap();
    assert_eq!(state.board, vec![3, 4, 1, 5, 2, 6, 9, 7, 8]);
    assert_eq!(state.score(), 6);
    assert_eq!(state.max_score(), 8);
}

#[test]
fn max_score_is_cell_count_minus_one() {
    let three = State::new(vec![0, 0, 1, 0, 2, 0, 9, 0, 0], 3).unwrap();
    assert_eq!(three.max_score(), 8);
    let four = State::new(vec![0; 16], 4).unwrap();
    assert_eq!(four.max_score(), 15);
}

#[test]
fn solved_board_has_no_improving_step() {
    // A fully solved board: the step must hand the same score back and leave
    // the arrangement alone.
    let mut state = State::new(vec![3, 4, 1, 8, 2, 5, 9, 7, 6], 3).unwrap();
    let before = state.board.clone();
    let score = state.score();
    assert_eq!(score, state.max_score());
    let after = state.step(score);
    assert_eq!(after, score);
    assert_eq!(state.board, before);
}

#[test]
fn step_never_returns_less_than_its_input() {
    let mut state = State::new(vec![0, 0, 1, 0, 2, 0, 9, 0, 0], 3).unwrap();
    let mut score = state.score();
    for _ in 0..4 {
        let next = state.step(score);
        assert!(next >= score);
        score = next;
    }
}

#[test]
fn fixed_cells_keep_their_values() {
    // Cells 2, 4 and 6 were given as 1, 2 and 9; no amount of searching may
    // move them.
    let mut state = State::new(vec![0, 0, 1, 0, 2, 0, 9, 0, 0], 3).unwrap();
    for _ in 0..5 {
        state.random_start();
        let score = state.score();
        state.step(score);
        assert_eq!(state.board[2], 1);
        assert_eq!(state.board[4], 2);
        assert_eq!(state.board[6], 9);
    }
}

#[test]
fn random_start_keeps_the_missing_value_set() {
    // The input lacks 3, 4, 5, 6, 7 and 8: after every restart the mutable
    // cells (all but 2, 4 and 6) hold exactly those values, none repeated.
    let mut state = State::new(vec![0, 0, 1, 0, 2, 0, 9, 0, 0], 3).unwrap();
    let missing: HashSet<u8> = [3, 4, 5, 6, 7, 8].into_iter().collect();
    for _ in 0..5 {
        state.random_start();
        let mut held = HashSet::new();
        for idx in [0usize, 1, 3, 5, 7, 8] {
            assert!(held.insert(state.board[idx]));
        }
        assert_eq!(held, missing);
    }
}

#[test]
fn one_cell_board_is_trivially_solved() {
    let mut state = State::new(vec![0], 1).unwrap();
    assert_eq!(state.board, vec![1]);
    assert_eq!(state.score(), 0);
    assert_eq!(state.max_score(), 0);
    assert!(state.hillclimb());
}

#[test]
fn largest_width_fills_all_empty_cells_in_order() {
    // With every cell open, the deterministic fill writes 1..=225 in
    // position order.
    let state = State::new(vec![0; 225], 15).unwrap();
    let expected: Vec<u8> = (1..=225u16).map(|v| v as u8).collect();
    assert_eq!(state.board, expected);
}

#[test]
fn single_mutable_cell_leaves_nothing_to_swap() {
    // Only one open cell: neither a restart nor a step can change anything.
    let mut state = State::new(vec![1, 2, 0, 4], 2).unwrap();
    assert_eq!(state.board, vec![1, 2, 3, 4]);
    let score = state.score();
    assert_eq!(state.random_start(), score);
    assert_eq!(state.step(score), score);
    assert_eq!(state.board, vec![1, 2, 3, 4]);
}

#[test]
fn hillclimb_on_a_solved_board_changes_nothing() {
    // A board already at the maximum score comes back reported solved, with
    // every cell exactly where it was.
    let mut state = State::new(vec![3, 4, 1, 8, 2, 5, 9, 7, 6], 3).unwrap();
    let before = state.board.clone();
    assert!(state.hillclimb());
    assert_eq!(state.board, before);
}

#[test]
fn hillclimb_reports_the_solution() {
    let mut state = State::new(vec![0, 0, 1, 0, 2, 0, 9, 0, 0], 3).unwrap();
    let solved = state.hillclimb();
    assert!(solved);
    assert_eq!(state.score(), state.max_score());
}

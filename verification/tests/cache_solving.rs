use std::str::FromStr;

use slidy::puzzle::puzzle::Puzzle;
use slidy::puzzle::size::Size as BoardSize;
use slidy::puzzle::sliding_puzzle::SlidingPuzzle;
use slidy::solver::small::solver::Solver as SmallSolver;
use slidy_tool::{decode_table, Metric, SolveError, State};

#[test]
fn solve_3x2_optimal_length() {
    let p = Puzzle::from_str("1 2 3/4 0 5").unwrap();
    let mut state = State::new();
    let sol = state.solve(&p, Metric::Stm).unwrap();
    assert_eq!(sol.len_metric(Metric::Stm), 1);
}

#[test]
fn cache_determinism_repeated_calls() {
    let p = Puzzle::from_str("4 1 3/2 5 0").unwrap();
    let mut state = State::new();
    let a = state.solve(&p, Metric::Stm).unwrap().len_metric(Metric::Stm);
    let b = state.solve(&p, Metric::Stm).unwrap().len_metric(Metric::Stm);
    assert_eq!(a, b);
    let mut fresh = State::new();
    let c = fresh.solve(&p, Metric::Stm).unwrap().len_metric(Metric::Stm);
    assert_eq!(a, c);
}

#[test]
fn key_normalization_transposed_states() {
    let p = scramble(BoardSize::new(3, 2).unwrap(), "RD");
    let t = scramble(BoardSize::new(2, 3).unwrap(), "DR");
    let mut state = State::new();
    let a = state.solve(&p, Metric::Stm).unwrap().len_metric(Metric::Stm);
    let b = state.solve(&t, Metric::Stm).unwrap().len_metric(Metric::Stm);
    assert_eq!(a, b);
    assert_eq!(
        State::table_file_name(2, 3, Metric::Stm),
        State::table_file_name(3, 2, Metric::Stm),
    );
    assert_eq!(State::table_file_name(3, 2, Metric::Stm), Some("3x2-stm.bin"));
    assert_eq!(State::table_file_name(3, 2, Metric::Mtm), Some("3x2-mtm.bin"));
    assert_eq!(State::table_file_name(4, 4, Metric::Stm), None);
}

#[test]
fn unsupported_configuration_fails_fast() {
    let p = Puzzle::new(BoardSize::new(8, 8).unwrap());
    let mut state = State::new();
    assert_eq!(state.solve(&p, Metric::Mtm).unwrap_err(), SolveError::UnsupportedConfiguration);
    let q = Puzzle::new(BoardSize::new(4, 4).unwrap());
    assert_eq!(state.solve(&q, Metric::Mtm).unwrap_err(), SolveError::UnsupportedConfiguration);
}

#[test]
fn unsolvable_states_are_reported() {
    let p = Puzzle::from_str("2 1 3/4 5 0").unwrap();
    let mut state = State::new();
    assert_eq!(state.solve(&p, Metric::Stm).unwrap_err(), SolveError::Unsolvable);
    assert_eq!(state.solve(&p, Metric::Mtm).unwrap_err(), SolveError::Unsolvable);
}

#[test]
fn multi_tile_metric_counts_runs() {
    let p = Puzzle::from_str("1 2 3/0 4 5").unwrap();
    let mut state = State::new();
    let mtm = state.solve(&p, Metric::Mtm).unwrap();
    assert_eq!(mtm.len_metric(Metric::Mtm), 1);
    assert_eq!(mtm.len_metric(Metric::Stm), 2);
    let stm = state.solve(&p, Metric::Stm).unwrap();
    assert_eq!(stm.len_metric(Metric::Stm), 2);
}

#[test]
fn generic_fallback_solves_other_shapes() {
    let p = scramble(BoardSize::new(2, 4).unwrap(), "RD2");
    let mut state = State::new();
    let sol = state.solve(&p, Metric::Stm).unwrap();
    assert_eq!(sol.len_metric(Metric::Stm), 3);
}

#[test]
fn solve_4x4_uses_exact_optimum() {
    let p = scramble(BoardSize::new(4, 4).unwrap(), "R2D");
    let mut state = State::new();
    let sol = state.solve(&p, Metric::Stm).unwrap();
    assert_eq!(sol.len_metric(Metric::Stm), 3);
    let again = state.solve(&p, Metric::Stm).unwrap();
    assert_eq!(again.len_metric(Metric::Stm), 3);
}

fn scramble(size: BoardSize, alg: &str) -> Puzzle {
    let a = slidy::algorithm::algorithm::Algorithm::from_str(alg).unwrap();
    let mut p = Puzzle::new(size);
    assert!(p.try_apply_alg(&a));
    p
}

#[test]
fn fresh_table_appears_once_and_decodes() {
    let mut state = State::new();
    assert!(state.take_fresh_table_3x2_stm().is_none());
    let p = Puzzle::from_str("1 2 3/4 0 5").unwrap();
    state.solve(&p, Metric::Stm).unwrap();
    let file = state.take_fresh_table_3x2_stm().unwrap();
    let payload = decode_table(&file).unwrap();
    assert_eq!(payload.len() + 8, file.len());
    assert!(state.take_fresh_table_3x2_stm().is_none());
    state.solve(&p, Metric::Stm).unwrap();
    assert!(state.take_fresh_table_3x2_stm().is_none());
}

#[test]
fn corrupted_table_file_is_refused_and_rebuilt_result_matches() {
    let mut state = State::new();
    let p = Puzzle::from_str("4 1 3/2 5 0").unwrap();
    let want = state.solve(&p, Metric::Stm).unwrap().len_metric(Metric::Stm);
    let mut file = state.take_fresh_table_3x2_stm().unwrap();
    file[0] ^= 0xff;
    assert_eq!(decode_table(&file), None);
    let mut rebuilt = State::new();
    let got = rebuilt.solve(&p, Metric::Stm).unwrap().len_metric(Metric::Stm);
    assert_eq!(want, got);
}

#[test]
fn installed_solver_answers_like_a_fresh_one() {
    let mut state = State::new();
    state.install_solver_3x2_stm(SmallSolver::<3, 2, 6, slidy::algorithm::metric::Stm>::new());
    let p = Puzzle::from_str("1 2 3/4 0 5").unwrap();
    let sol = state.solve(&p, Metric::Stm).unwrap();
    assert_eq!(sol.len_metric(Metric::Stm), 1);
    assert!(state.take_fresh_table_3x2_stm().is_none());
    let mut mtm_state = State::new();
    mtm_state
        .install_solver_3x2_mtm(SmallSolver::<3, 2, 6, slidy::algorithm::metric::Mtm>::new());
    let q = Puzzle::from_str("1 2 3/0 4 5").unwrap();
    assert_eq!(mtm_state.solve(&q, Metric::Mtm).unwrap().len_metric(Metric::Mtm), 1);
}

use std::str::FromStr;

use slidy::puzzle::puzzle::Puzzle;
use slidy::puzzle::size::Size as BoardSize;
use slidy::puzzle::sliding_puzzle::SlidingPuzzle;
use slidy_tool::{
    apply, apply_to_solved, embed, format_state, from_solution, md, scrambled_puzzle, solvable,
    Dir, Metric, MoveSeq, ScrambleKind, Size, SolveError, State, StateFormatter, TileMove,
};

fn ms(parts: &[(Dir, u64)]) -> MoveSeq {
    let v: Vec<TileMove> = parts.iter().map(|&(dir, amt)| TileMove { dir, amt }).collect();
    MoveSeq::from_raw(v).unwrap()
}

#[test]
fn apply_matches_direct_application() {
    let alg = ms(&[(Dir::Right, 1), (Dir::Down, 1)]);
    let mut p = Puzzle::new(BoardSize::new(3, 3).unwrap());
    assert!(apply(&mut p, &alg));
    let mut q = Puzzle::new(BoardSize::new(3, 3).unwrap());
    let direct = slidy::algorithm::algorithm::Algorithm::from_str("RD").unwrap();
    assert!(q.try_apply_alg(&direct));
    assert_eq!(p, q);
}

#[test]
fn apply_refuses_moves_off_the_board() {
    let alg = ms(&[(Dir::Up, 1)]);
    let mut p = Puzzle::new(BoardSize::new(3, 3).unwrap());
    let before = p.clone();
    assert!(!apply(&mut p, &alg));
    assert_eq!(p, before);
}

#[test]
fn solvable_is_slidy_answer() {
    assert!(solvable(&Puzzle::from_str("1 2/0 3").unwrap()));
    assert!(!solvable(&Puzzle::from_str("2 1/3 0").unwrap()));
}

#[test]
fn md_of_solved_is_zero() {
    assert_eq!(md(&Puzzle::new(BoardSize::new(4, 4).unwrap())), Some(0));
}

#[test]
fn md_counts_manhattan_distances() {
    assert_eq!(md(&Puzzle::from_str("1 2/0 3").unwrap()), Some(1));
    assert_eq!(md(&Puzzle::from_str("1 2 3/4 0 5").unwrap()), Some(1));
}

#[test]
fn md_of_unsolvable_is_none() {
    assert_eq!(md(&Puzzle::from_str("2 1/3 0").unwrap()), None);
}

#[test]
fn format_state_matches_slidy_displays() {
    let p = Puzzle::from_str("1 2/0 3").unwrap();
    assert_eq!(format_state(&p, StateFormatter::Inline), p.display_inline().to_string());
    assert_eq!(format_state(&p, StateFormatter::Grid), p.display_grid().to_string());
}

#[test]
fn apply_to_solved_scrambles() {
    let alg = ms(&[(Dir::Right, 1)]);
    let p = apply_to_solved(&alg, Size(3, 2)).unwrap();
    assert_eq!(p, Puzzle::from_str("1 2 3/4 0 5").unwrap());
    let bad = ms(&[(Dir::Up, 1)]);
    assert!(apply_to_solved(&bad, Size(3, 2)).is_none());
}

#[test]
fn from_solution_inverts() {
    let alg = ms(&[(Dir::Right, 1), (Dir::Left, 1)]);
    let mut p = from_solution(&alg, Size(3, 1)).unwrap();
    assert!(apply(&mut p, &alg));
    assert_eq!(p, Puzzle::new(BoardSize::new(3, 1).unwrap()));
}

#[test]
fn embed_matches_slidy() {
    let s = Puzzle::from_str("1 2/0 3").unwrap();
    let mut t = Puzzle::new(BoardSize::new(3, 3).unwrap());
    let mut expected = Puzzle::new(BoardSize::new(3, 3).unwrap());
    let ok_expected = s.try_embed_into(&mut expected);
    let ok = embed(&s, &mut t);
    assert_eq!(ok, ok_expected);
    assert_eq!(t, expected);
}

#[test]
fn scrambles_are_solvable() {
    let p = scrambled_puzzle(Size(3, 3), ScrambleKind::RandomState).unwrap();
    assert!(solvable(&p));
    assert_eq!(p.size(), BoardSize::new(3, 3).unwrap());
    let q = scrambled_puzzle(
        Size(4, 4),
        ScrambleKind::RandomMoves { moves: 12, allow_backtracking: true, allow_illegal_moves: false },
    )
    .unwrap();
    assert!(solvable(&q));
}

#[test]
fn scramble_refuses_degenerate_random_moves() {
    let r = scrambled_puzzle(
        Size(1, 5),
        ScrambleKind::RandomMoves { moves: 10, allow_backtracking: false, allow_illegal_moves: false },
    );
    assert!(r.is_none());
    let one_cell = scrambled_puzzle(
        Size(1, 1),
        ScrambleKind::RandomMoves { moves: 3, allow_backtracking: true, allow_illegal_moves: false },
    );
    assert!(one_cell.is_none());
    let skipping = scrambled_puzzle(
        Size(1, 1),
        ScrambleKind::RandomMoves { moves: 3, allow_backtracking: true, allow_illegal_moves: true },
    );
    assert!(skipping.is_some());
}

#[test]
fn format_state_one_cell_board() {
    let p = Puzzle::new(BoardSize::new(1, 1).unwrap());
    assert_eq!(format_state(&p, StateFormatter::Inline), "0");
    assert_eq!(format_state(&p, StateFormatter::Grid), "0");
}

#[test]
fn opt_diff_measures_detours() {
    let mut state = State::new();
    let wasteful = ms(&[(Dir::Right, 2), (Dir::Left, 2)]);
    assert_eq!(state.opt_diff(&wasteful, Size(3, 1)), Ok(4));
    let optimal = MoveSeq::empty();
    assert_eq!(state.opt_diff(&optimal, Size(3, 1)), Ok(0));
}

#[test]
fn opt_diff_rejects_inapplicable_sequences() {
    let mut state = State::new();
    let alg = ms(&[(Dir::Down, 1)]);
    assert_eq!(state.opt_diff(&alg, Size(3, 1)), Err(SolveError::NotApplicable));
}

#[test]
fn filter_optimal_keeps_the_right_side() {
    let mut state = State::new();
    let optimal = MoveSeq::empty();
    assert_eq!(state.filter_optimal(&optimal, Size(3, 1), false), Ok(true));
    assert_eq!(state.filter_optimal(&optimal, Size(3, 1), true), Ok(false));
    let wasteful = ms(&[(Dir::Right, 2), (Dir::Left, 2)]);
    assert_eq!(state.filter_optimal(&wasteful, Size(3, 1), false), Ok(false));
    assert_eq!(state.filter_optimal(&wasteful, Size(3, 1), true), Ok(true));
    let inapplicable = ms(&[(Dir::Down, 1)]);
    assert_eq!(state.filter_optimal(&inapplicable, Size(3, 1), false), Ok(false));
}

use slidy::puzzle::puzzle::Puzzle;
use slidy::puzzle::size::Size as BoardSize;
use slidy_tool::{apply, Dir, Metric, MoveSeq, SolveError, State, TileMove};

fn msq(parts: &[(Dir, u64)]) -> MoveSeq {
    let v: Vec<TileMove> = parts.iter().map(|&(dir, amt)| TileMove { dir, amt }).collect();
    MoveSeq::from_raw(v).unwrap()
}

#[test]
fn optimizer_simplifies_first() {
    let s = msq(&[(Dir::Up, 2), (Dir::Down, 2)]);
    let mut state = State::new();
    let out = state.optimize(&s, Metric::Stm, 1).unwrap();
    assert_eq!(out.len_metric(Metric::Stm), 0);
}

#[test]
fn optimizer_leaves_optimal_input_alone() {
    let s = msq(&[(Dir::Right, 1)]);
    let mut state = State::new();
    let out = state.optimize(&s, Metric::Stm, 1).unwrap();
    assert_eq!(out.moves(), s.moves());
}

#[test]
fn optimizer_shrinks_a_doubled_loop() {
    // Two laps around a 2x2 block walk eight moves to a state that one
    // reverse lap reaches in four.
    let lap = [(Dir::Down, 1), (Dir::Right, 1), (Dir::Up, 1), (Dir::Left, 1)];
    let mut parts: Vec<(Dir, u64)> = Vec::new();
    parts.extend_from_slice(&lap);
    parts.extend_from_slice(&lap);
    let s = msq(&parts);
    let mut state = State::new();
    let out = state.optimize(&s, Metric::Stm, 8).unwrap();
    assert_eq!(out.len_metric(Metric::Stm), 4);
}

#[test]
fn optimizer_never_lengthens() {
    let s = msq(&[
        (Dir::Down, 2),
        (Dir::Right, 1),
        (Dir::Up, 1),
        (Dir::Right, 1),
        (Dir::Down, 1),
        (Dir::Left, 2),
        (Dir::Up, 2),
    ]);
    let before = s.len_metric(Metric::Stm);
    let mut state = State::new();
    for w in 1..=4u64 {
        let out = state.optimize(&s, Metric::Stm, w).unwrap();
        assert!(out.len_metric(Metric::Stm) <= before);
    }
}

#[test]
fn optimizer_effect_is_preserved() {
    let s = msq(&[
        (Dir::Down, 1),
        (Dir::Right, 1),
        (Dir::Up, 1),
        (Dir::Left, 1),
        (Dir::Down, 1),
        (Dir::Right, 1),
        (Dir::Up, 1),
        (Dir::Left, 1),
        (Dir::Down, 1),
    ]);
    let (w, h) = s.min_applicable_size().unwrap();
    let mut state = State::new();
    let out = state.optimize(&s, Metric::Stm, 8).unwrap();
    assert!(out.len_metric(Metric::Stm) < s.len_metric(Metric::Stm));
    let size = BoardSize::new(w, h).unwrap();
    let mut p1 = Puzzle::new(size);
    let mut p2 = Puzzle::new(size);
    assert!(apply(&mut p1, &s));
    assert!(apply(&mut p2, &out));
    assert_eq!(p1, p2);
}

#[test]
fn optimizer_shortens_a_sixty_move_scramble_with_a_detour() {
    let mut parts: Vec<(Dir, u64)> = Vec::new();
    let lap = [(Dir::Down, 3), (Dir::Right, 3), (Dir::Up, 3), (Dir::Left, 3)];
    for _ in 0..2 {
        parts.extend_from_slice(&lap);
    }
    // An eight-move detour around one block that four reverse moves
    // undo, split so that no adjacent moves share an axis and plain
    // simplification cannot touch it.
    let detour = [
        (Dir::Down, 1),
        (Dir::Right, 1),
        (Dir::Up, 1),
        (Dir::Left, 1),
        (Dir::Down, 1),
        (Dir::Right, 1),
        (Dir::Up, 1),
        (Dir::Left, 1),
    ];
    parts.extend_from_slice(&detour);
    for _ in 0..2 {
        parts.extend_from_slice(&lap);
    }
    parts.extend_from_slice(&[(Dir::Down, 2), (Dir::Right, 2)]);
    let s = msq(&parts);
    assert_eq!(s.len_metric(Metric::Stm), 60);
    assert_eq!(s.min_applicable_size(), Some((4, 4)));
    assert_eq!(s.simplified().len_metric(Metric::Stm), 60);
    let mut state = State::new();
    let out = state.optimize(&s, Metric::Stm, 10).unwrap();
    assert!(out.len_metric(Metric::Stm) < 60);
}

#[test]
fn optimizer_under_multi_tile_metric() {
    let s = msq(&[(Dir::Down, 1), (Dir::Right, 2)]);
    let mut state = State::new();
    let out = state.optimize(&s, Metric::Mtm, 2).unwrap();
    assert_eq!(out.moves(), s.moves());
    let lap = [(Dir::Down, 1), (Dir::Right, 2), (Dir::Up, 1), (Dir::Left, 2)];
    let mut parts: Vec<(Dir, u64)> = Vec::new();
    parts.extend_from_slice(&lap);
    parts.extend_from_slice(&lap);
    let d = msq(&parts);
    let shorter = state.optimize(&d, Metric::Mtm, 8).unwrap();
    assert!(shorter.len_metric(Metric::Mtm) <= 8);
    let size = BoardSize::new(3, 2).unwrap();
    let mut p1 = Puzzle::new(size);
    let mut p2 = Puzzle::new(size);
    assert!(apply(&mut p1, &d));
    assert!(apply(&mut p2, &shorter));
    assert_eq!(p1, p2);
}

#[test]
fn optimizer_propagates_unsupported_windows() {
    let s = msq(&[(Dir::Right, 1), (Dir::Down, 1)]);
    let mut state = State::new();
    assert_eq!(state.optimize(&s, Metric::Mtm, 2).unwrap_err(), SolveError::UnsupportedConfiguration);
}

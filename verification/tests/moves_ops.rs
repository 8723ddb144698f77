use slidy_tool::{Dir, Metric, MoveSeq, MoveSeqError, SliceError, TileMove};

fn seq(parts: &[(Dir, u64)]) -> MoveSeq {
    let v: Vec<TileMove> = parts.iter().map(|&(dir, amt)| TileMove { dir, amt }).collect();
    MoveSeq::from_raw(v).unwrap()
}

#[test]
fn from_raw_rejects_zero_amount() {
    let v = vec![TileMove { dir: Dir::Up, amt: 0 }];
    assert_eq!(MoveSeq::from_raw(v).unwrap_err(), MoveSeqError::ZeroAmount);
}

#[test]
fn from_raw_rejects_overlong_totals() {
    let v = vec![TileMove { dir: Dir::Right, amt: u64::MAX }];
    assert_eq!(MoveSeq::from_raw(v).unwrap_err(), MoveSeqError::TooLong);
}

#[test]
fn from_raw_keeps_moves() {
    let s = seq(&[(Dir::Right, 3), (Dir::Up, 2)]);
    assert_eq!(s.moves().len(), 2);
    assert_eq!(s.moves()[0], TileMove { dir: Dir::Right, amt: 3 });
    assert_eq!(s.moves()[1], TileMove { dir: Dir::Up, amt: 2 });
}

#[test]
fn len_under_both_metrics() {
    let s = seq(&[(Dir::Right, 3), (Dir::Up, 2)]);
    assert_eq!(s.len_metric(Metric::Stm), 5);
    assert_eq!(s.len_metric(Metric::Mtm), 2);
}

#[test]
fn stm_slice_splits_moves() {
    let s = seq(&[(Dir::Right, 3), (Dir::Up, 2)]);
    let t = s.slice_metric(Metric::Stm, 1, 4).unwrap();
    assert_eq!(t.len_metric(Metric::Stm), 3);
    assert_eq!(t.moves()[0], TileMove { dir: Dir::Right, amt: 2 });
    assert_eq!(t.moves()[1], TileMove { dir: Dir::Up, amt: 1 });
}

#[test]
fn stm_slice_inside_one_move() {
    let s = seq(&[(Dir::Down, 9)]);
    let t = s.slice_metric(Metric::Stm, 3, 7).unwrap();
    assert_eq!(t.moves().len(), 1);
    assert_eq!(t.moves()[0], TileMove { dir: Dir::Down, amt: 4 });
}

#[test]
fn mtm_slice_is_subrange() {
    let s = seq(&[(Dir::Right, 3), (Dir::Up, 2), (Dir::Left, 1)]);
    let t = s.slice_metric(Metric::Mtm, 1, 3).unwrap();
    assert_eq!(t.moves().len(), 2);
    assert_eq!(t.moves()[0], TileMove { dir: Dir::Up, amt: 2 });
    assert_eq!(t.moves()[1], TileMove { dir: Dir::Left, amt: 1 });
}

#[test]
fn slice_errors_are_exact() {
    let s = seq(&[(Dir::Right, 3)]);
    assert_eq!(s.slice_metric(Metric::Stm, 2, 1).unwrap_err(), SliceError::UnorderedRange);
    assert_eq!(s.slice_metric(Metric::Stm, 0, 4).unwrap_err(), SliceError::OutOfRange);
    assert_eq!(s.slice_metric(Metric::Mtm, 0, 2).unwrap_err(), SliceError::OutOfRange);
}

#[test]
fn inverse_reverses_and_flips() {
    let s = seq(&[(Dir::Up, 2), (Dir::Left, 1)]);
    let inv = s.inverse();
    assert_eq!(inv.moves()[0], TileMove { dir: Dir::Right, amt: 1 });
    assert_eq!(inv.moves()[1], TileMove { dir: Dir::Down, amt: 2 });
    assert_eq!(inv.len_metric(Metric::Stm), s.len_metric(Metric::Stm));
}

#[test]
fn concat_appends() {
    let a = seq(&[(Dir::Right, 1)]);
    let b = seq(&[(Dir::Down, 2)]);
    let c = a.concat(&b).unwrap();
    assert_eq!(c.moves().len(), 2);
    assert_eq!(c.len_metric(Metric::Stm), 3);
}

#[test]
fn simplified_combines_same_axis() {
    let s = seq(&[(Dir::Right, 1), (Dir::Right, 2)]);
    let t = s.simplified();
    assert_eq!(t.moves().len(), 1);
    assert_eq!(t.moves()[0], TileMove { dir: Dir::Right, amt: 3 });
}

#[test]
fn simplified_cancels_opposites() {
    let s = seq(&[(Dir::Up, 2), (Dir::Down, 2)]);
    let t = s.simplified();
    assert_eq!(t.moves().len(), 0);
}

#[test]
fn simplified_keeps_stable_sequences() {
    let s = seq(&[(Dir::Down, 3), (Dir::Right, 3), (Dir::Up, 3), (Dir::Left, 3)]);
    let t = s.simplified();
    assert_eq!(t.moves(), s.moves());
}

#[test]
fn min_applicable_size_examples() {
    assert_eq!(seq(&[(Dir::Right, 1)]).min_applicable_size(), Some((2, 1)));
    assert_eq!(seq(&[(Dir::Down, 1)]).min_applicable_size(), Some((1, 2)));
    assert_eq!(seq(&[(Dir::Up, 1)]).min_applicable_size(), None);
    assert_eq!(seq(&[(Dir::Right, 2), (Dir::Down, 1)]).min_applicable_size(), Some((3, 2)));
    assert_eq!(MoveSeq::empty().min_applicable_size(), Some((1, 1)));
}

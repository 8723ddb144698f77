use vstd::prelude::*;

verus! {

/// Labelling schemes for rendering and solving, mirroring the solver
/// strategies the command-line surface can select.
#[derive(Clone, Copy, Debug, PartialEq, Eq, Structural)]
pub enum LabelType {
    Trivial,
    RowGrids,
    Rows,
    Fringe,
    SquareFringe,
    SplitFringe,
    SplitSquareFringe,
    Diagonals,
    Checkerboard,
    Grids,
}

/// Colour schemes for rendering a puzzle state.
#[derive(Clone, Copy, Debug, PartialEq, Eq, Structural)]
pub enum ColoringType {
    Transparent,
    Rainbow,
    Black,
}

/// How a puzzle state is written out: one line, or one row per line.
#[derive(Clone, Copy, Debug, PartialEq, Eq, Structural)]
pub enum StateFormatter {
    Inline,
    Grid,
}

/// How the length of a move sequence is measured: single-tile moves
/// (a move of amount `n` counts `n`) or multi-tile moves (every move
/// counts one).
#[derive(Clone, Copy, Debug, PartialEq, Eq, Structural)]
pub enum Metric {
    Stm,
    Mtm,
}

} // verus!

//! Tools for sliding-tile puzzles: a solver cache that hands out optimal
//! solutions per board shape and metric, and an optimizer that shortens
//! move sequences by re-solving sliding windows.

pub mod algorithm_ext;
pub mod codec;
pub mod enums;
pub mod moves;
pub mod puzzle;
pub mod size;
pub mod solver;
pub mod state;

pub use algorithm_ext::simplified_of;
pub use codec::{decode_table, encode_table};
pub use enums::{ColoringType, LabelType, Metric, StateFormatter};
pub use moves::{Dir, MoveSeq, MoveSeqError, SliceError, TileMove};
pub use puzzle::{
    apply, apply_to_solved, embed, format_state, from_solution, md, scrambled_puzzle, solvable,
    ScrambleKind,
};
pub use size::{ParseSizeError, Size};
pub use solver::optimal_solution;
pub use state::{strategy, strategy_spec, SolveError, State, Strategy};

use vstd::prelude::*;

use crate::enums::Metric;
use crate::moves::{inv_dirs, len_of, moves_wf, stm_of, sum_amts, Dir, TileMove};
use crate::puzzle::{apply_result, grid_h, grid_w, puzzle_grid, solvable_grid, solved_grid};

use slidy::algorithm::direction::Direction;
use slidy::algorithm::metric::{Mtm, Stm};
use slidy::puzzle::label::label::RowGrids;
use slidy::solver::heuristic::manhattan::ManhattanDistance;
use slidy::solver::size4x4::stm::solver::Solver as Solver4x4Stm;
use slidy::solver::small::pdb::Pdb;
use slidy::solver::small::solver::Solver as SmallSolver;
use slidy::solver::solver::{Solver as GenericSolver, SolverError};

verus! {

#[verifier::external_type_specification]
#[verifier::external_body]
pub struct ExSolver4x4Stm(Solver4x4Stm);

#[verifier::external_type_specification]
#[verifier::external_body]
#[verifier::reject_recursive_types(M)]
pub struct ExSmallSolver<const W: usize, const H: usize, const N: usize, M>(
    SmallSolver<W, H, N, M>,
);

#[verifier::external_type_specification]
#[verifier::external_body]
#[verifier::reject_recursive_types(M)]
pub struct ExPdb<const W: usize, const H: usize, const N: usize, M>(Pdb<W, H, N, M>);

#[verifier::external_type_specification]
#[verifier::external_body]
pub struct ExStm(Stm);

#[verifier::external_type_specification]
#[verifier::external_body]
pub struct ExMtm(Mtm);

#[verifier::external_type_specification]
pub struct ExSolverError(SolverError);

/// The table bytes inside a 3-by-2 single-tile-metric database.
pub uninterp spec fn table_3x2_stm(p: Pdb<3, 2, 6, Stm>) -> Seq<u8>;

/// The table bytes inside a 3-by-2 multi-tile-metric database.
pub uninterp spec fn table_3x2_mtm(p: Pdb<3, 2, 6, Mtm>) -> Seq<u8>;

/// What it means for `sol` to be an optimal solution of the state `g`
/// under metric `m`: its moves solve `g`, undoing them scrambles the
/// solved board back to `g`, and no move sequence solving `g` is
/// shorter under `m`. A solver's searched move stack is bounded, so
/// the single-tile length stays small.
pub open spec fn optimal_solution(g: Seq<Seq<u64>>, m: Metric, sol: Seq<TileMove>) -> bool {
    &&& moves_wf(sol)
    &&& sum_amts(sol) <= 256
    &&& apply_result(g, stm_of(sol)) == Some(solved_grid(grid_w(g), grid_h(g)))
    &&& apply_result(solved_grid(grid_w(g), grid_h(g)), inv_dirs(stm_of(sol))) == Some(g)
    &&& forall|s2: Seq<TileMove>|
        moves_wf(s2) && #[trigger] apply_result(g, stm_of(s2)) == Some(
            solved_grid(grid_w(g), grid_h(g)),
        ) ==> len_of(s2, m) >= len_of(sol, m)
}

/// Relies on slidy's 4x4 pattern-database solver constructor: builds
/// the tables in memory. Expensive; done at most once per cache.
#[verifier::external_body]
pub(crate) fn solver_4x4_new() -> Solver4x4Stm {
    Solver4x4Stm::new()
}

/// Relies on slidy's 4x4 solver: an optimal single-tile-metric
/// solution for any solvable 4x4 state, and an unsolvable error
/// exactly for the unsolvable ones. Solutions fit the solver's
/// 80-entry move stack.
#[verifier::external_body]
pub(crate) fn solver_4x4_solve(
    s: &Solver4x4Stm,
    p: &slidy::puzzle::puzzle::Puzzle,
) -> (r: Result<Vec<TileMove>, SolverError>)
    requires
        grid_w(puzzle_grid(*p)) == 4,
        grid_h(puzzle_grid(*p)) == 4,
    ensures
        match r {
            Ok(sol) => optimal_solution(puzzle_grid(*p), Metric::Stm, sol@) && solvable_grid(
                puzzle_grid(*p),
            ),
            Err(e) => e is Unsolvable && !solvable_grid(puzzle_grid(*p)),
        },
{
    let back = |d: Direction| match d { Direction::Up => Dir::Up, Direction::Left => Dir::Left, Direction::Down => Dir::Down, Direction::Right => Dir::Right };
    s.solve(p).map(|alg| alg.moves().iter().map(|m| TileMove { dir: back(m.direction()), amt: m.amount() }).collect())
}

/// Relies on slidy's small pattern-database constructor for the given
/// metric: builds the 3x2 table in memory.
#[verifier::external_body]
pub(crate) fn pdb_3x2_stm_new() -> Pdb<3, 2, 6, Stm> {
    Pdb::<3, 2, 6, Stm>::new()
}

/// Relies on slidy's Pdb `AsRef<[u8]>`: the table's bytes.
#[verifier::external_body]
pub(crate) fn pdb_3x2_stm_bytes(p: &Pdb<3, 2, 6, Stm>) -> (r: Vec<u8>)
    ensures
        r@ == table_3x2_stm(*p),
{
    p.as_ref().to_vec()
}

/// Relies on slidy's small solver constructor from an existing table.
#[verifier::external_body]
pub(crate) fn solver_3x2_stm_with_pdb(p: Pdb<3, 2, 6, Stm>) -> SmallSolver<3, 2, 6, Stm> {
    SmallSolver::<3, 2, 6, Stm>::with_pdb(p)
}

/// Relies on slidy's small solver for 3x2 and 2x3 boards: an optimal
/// single-tile-metric solution for any solvable state of either
/// shape. Solutions fit the solver's 128-entry move stack.
#[verifier::external_body]
pub(crate) fn solver_3x2_stm_solve(
    s: &SmallSolver<3, 2, 6, Stm>,
    p: &slidy::puzzle::puzzle::Puzzle,
) -> (r: Result<Vec<TileMove>, SolverError>)
    requires
        (grid_w(puzzle_grid(*p)) == 3 && grid_h(puzzle_grid(*p)) == 2) || (grid_w(
            puzzle_grid(*p),
        ) == 2 && grid_h(puzzle_grid(*p)) == 3),
    ensures
        match r {
            Ok(sol) => optimal_solution(puzzle_grid(*p), Metric::Stm, sol@) && solvable_grid(
                puzzle_grid(*p),
            ),
            Err(e) => e is Unsolvable && !solvable_grid(puzzle_grid(*p)),
        },
{
    let back = |d: Direction| match d { Direction::Up => Dir::Up, Direction::Left => Dir::Left, Direction::Down => Dir::Down, Direction::Right => Dir::Right };
    s.solve(p).map(|alg| alg.moves().iter().map(|m| TileMove { dir: back(m.direction()), amt: m.amount() }).collect())
}

/// Relies on slidy's small pattern-database constructor for the
/// multi-tile metric: builds the 3x2 table in memory.
#[verifier::external_body]
pub(crate) fn pdb_3x2_mtm_new() -> Pdb<3, 2, 6, Mtm> {
    Pdb::<3, 2, 6, Mtm>::new()
}

/// Relies on slidy's Pdb `AsRef<[u8]>`: the table's bytes.
#[verifier::external_body]
pub(crate) fn pdb_3x2_mtm_bytes(p: &Pdb<3, 2, 6, Mtm>) -> (r: Vec<u8>)
    ensures
        r@ == table_3x2_mtm(*p),
{
    p.as_ref().to_vec()
}

/// Relies on slidy's small solver constructor from an existing table.
#[verifier::external_body]
pub(crate) fn solver_3x2_mtm_with_pdb(p: Pdb<3, 2, 6, Mtm>) -> SmallSolver<3, 2, 6, Mtm> {
    SmallSolver::<3, 2, 6, Mtm>::with_pdb(p)
}

/// Relies on slidy's small solver for 3x2 and 2x3 boards: an optimal
/// multi-tile-metric solution for any solvable state of either shape.
/// Solutions fit the solver's 128-entry move stack.
#[verifier::external_body]
pub(crate) fn solver_3x2_mtm_solve(
    s: &SmallSolver<3, 2, 6, Mtm>,
    p: &slidy::puzzle::puzzle::Puzzle,
) -> (r: Result<Vec<TileMove>, SolverError>)
    requires
        (grid_w(puzzle_grid(*p)) == 3 && grid_h(puzzle_grid(*p)) == 2) || (grid_w(
            puzzle_grid(*p),
        ) == 2 && grid_h(puzzle_grid(*p)) == 3),
    ensures
        match r {
            Ok(sol) => optimal_solution(puzzle_grid(*p), Metric::Mtm, sol@) && solvable_grid(
                puzzle_grid(*p),
            ),
            Err(e) => e is Unsolvable && !solvable_grid(puzzle_grid(*p)),
        },
{
    let back = |d: Direction| match d { Direction::Up => Dir::Up, Direction::Left => Dir::Left, Direction::Down => Dir::Down, Direction::Right => Dir::Right };
    s.solve(p).map(|alg| alg.moves().iter().map(|m| TileMove { dir: back(m.direction()), amt: m.amount() }).collect())
}

/// Relies on slidy's generic iterative-deepening solver with the
/// Manhattan-distance heuristic under the row-major labelling: correct
/// for any board shape. It answers unsolvable exactly for unsolvable
/// states. Its deepening steps by two from an admissible, parity-true
/// lower bound with an 8-bit depth, so every feasible solution length
/// up to at least 254 is searched before it gives up: when it does,
/// no solution of at most 253 single-tile moves exists. Solutions fit
/// the solver's 256-entry move stack.
#[verifier::external_body]
pub(crate) fn generic_solve_stm(
    p: &slidy::puzzle::puzzle::Puzzle,
) -> (r: Result<Vec<TileMove>, SolverError>)
    ensures
        match r {
            Ok(sol) => optimal_solution(puzzle_grid(*p), Metric::Stm, sol@) && solvable_grid(
                puzzle_grid(*p),
            ),
            Err(e) => (e is Unsolvable <==> !solvable_grid(puzzle_grid(*p))) && (e is Unsolvable
                || e is NoSolutionFound) && (e is NoSolutionFound ==> forall|s2: Seq<TileMove>|
                moves_wf(s2) && #[trigger] apply_result(puzzle_grid(*p), stm_of(s2)) == Some(
                    solved_grid(grid_w(puzzle_grid(*p)), grid_h(puzzle_grid(*p))),
                ) ==> len_of(s2, Metric::Stm) > 253),
        },
{
    let mut s: GenericSolver<'_, _, u8, _, _> = GenericSolver::new(
        &ManhattanDistance(&RowGrids),
        &RowGrids,
    );
    let back = |d: Direction| match d { Direction::Up => Dir::Up, Direction::Left => Dir::Left, Direction::Down => Dir::Down, Direction::Right => Dir::Right };
    s.solve(p).map(|alg| alg.moves().iter().map(|m| TileMove { dir: back(m.direction()), amt: m.amount() }).collect())
}

} // verus!

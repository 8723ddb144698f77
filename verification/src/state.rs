use vstd::prelude::*;

use crate::algorithm_ext::simplified_of;
use crate::codec::encode_table;
use crate::enums::Metric;
use crate::moves::{
    inverse_spec, lemma_stm_of_inverse, lemma_sum_amts_concat, len_of, min_size_dirs, moves_wf,
    stm_of, Dir, MoveSeq, TileMove,
};
use crate::puzzle::{
    applied, apply_moves, apply_result, can_apply, grid_h, grid_w, puzzle_grid, puzzle_new,
    puzzle_size, size_ok, solvable_grid, solved_grid, MAX_BOARD_CELLS,
};
use crate::size::Size;
use crate::solver::{
    generic_solve_stm, optimal_solution, pdb_3x2_mtm_bytes, pdb_3x2_mtm_new, pdb_3x2_stm_bytes,
    pdb_3x2_stm_new, solver_3x2_mtm_solve, solver_3x2_mtm_with_pdb, solver_3x2_stm_solve,
    solver_3x2_stm_with_pdb, solver_4x4_new, solver_4x4_solve,
};

use slidy::algorithm::metric::{Mtm, Stm};
use slidy::solver::size4x4::stm::solver::Solver as Solver4x4Stm;
use slidy::solver::small::solver::Solver as SmallSolver;
use slidy::solver::solver::SolverError;

verus! {

/// How a request for a board shape and metric is served.
#[derive(Clone, Copy, Debug, PartialEq, Eq, Structural)]
pub enum Strategy {
    /// The dedicated pattern-database solver for 4x4 boards.
    Pdb4x4,
    /// The dedicated table-backed solver for 3x2 and 2x3 boards, whose
    /// table is persisted to disk.
    Small3x2,
    /// The heuristic-guided general solver; no persistent state.
    Generic,
    /// No solving strategy exists for the combination.
    Unsupported,
}

/// Errors a solve request can end with.
#[derive(Clone, Copy, Debug, PartialEq, Eq, Structural)]
pub enum SolveError {
    /// The board shape and metric have no solving strategy at all.
    UnsupportedConfiguration,
    /// The state cannot be solved by any sequence of moves.
    Unsolvable,
    /// The general solver gave up before finding a solution.
    SearchFailed,
    /// A move sequence did not fit the board it was meant for.
    NotApplicable,
}

/// The strategy serving a `w` by `h` board under metric `m`: the 4x4
/// and the 3x2 families have dedicated table-backed solvers, every
/// other shape falls back to the general solver under the single-tile
/// metric and is unsupported under the multi-tile metric. A shape and
/// its transpose are served alike.
pub open spec fn strategy_spec(w: int, h: int, m: Metric) -> Strategy {
    if (w == 2 && h == 3) || (w == 3 && h == 2) {
        Strategy::Small3x2
    } else if m == Metric::Stm {
        if w == 4 && h == 4 {
            Strategy::Pdb4x4
        } else {
            Strategy::Generic
        }
    } else {
        Strategy::Unsupported
    }
}

/// Picks the strategy for a board shape and metric.
pub fn strategy(w: u64, h: u64, m: Metric) -> (r: Strategy)
    ensures
        r == strategy_spec(w as int, h as int, m),
{
    if (w == 2 && h == 3) || (w == 3 && h == 2) {
        Strategy::Small3x2
    } else if m == Metric::Stm {
        if w == 4 && h == 4 {
            Strategy::Pdb4x4
        } else {
            Strategy::Generic
        }
    } else {
        Strategy::Unsupported
    }
}

/// The solver cache: at most one solver per served shape-and-metric
/// combination, built or loaded on first use and kept for the life of
/// the value. Freshly built disk-backed tables are kept, already
/// framed for their file, until the owner takes them for persisting.
pub struct State {
    solver_4x4_stm: Option<Solver4x4Stm>,
    solver_3x2_stm: Option<SmallSolver<3, 2, 6, Stm>>,
    solver_3x2_mtm: Option<SmallSolver<3, 2, 6, Mtm>>,
    fresh_3x2_stm: Option<Vec<u8>>,
    fresh_3x2_mtm: Option<Vec<u8>>,
}

impl State {
    pub closed spec fn cached_4x4_stm(&self) -> Option<Solver4x4Stm> {
        self.solver_4x4_stm
    }

    pub closed spec fn cached_3x2_stm(&self) -> Option<SmallSolver<3, 2, 6, Stm>> {
        self.solver_3x2_stm
    }

    pub closed spec fn cached_3x2_mtm(&self) -> Option<SmallSolver<3, 2, 6, Mtm>> {
        self.solver_3x2_mtm
    }

    pub closed spec fn pending_3x2_stm(&self) -> Option<Seq<u8>> {
        match self.fresh_3x2_stm {
            Some(b) => Some(b@),
            None => None,
        }
    }

    pub closed spec fn pending_3x2_mtm(&self) -> Option<Seq<u8>> {
        match self.fresh_3x2_mtm {
            Some(b) => Some(b@),
            None => None,
        }
    }

    /// Every solver slot keeps the solver it holds: nothing evicts or
    /// replaces a cached solver.
    pub open spec fn retains(self, other: State) -> bool {
        &&& self.cached_4x4_stm() is Some ==> other.cached_4x4_stm() == self.cached_4x4_stm()
        &&& self.cached_3x2_stm() is Some ==> other.cached_3x2_stm() == self.cached_3x2_stm()
        &&& self.cached_3x2_mtm() is Some ==> other.cached_3x2_mtm() == self.cached_3x2_mtm()
    }

    /// A fresh cache with no solver built yet.
    pub fn new() -> (r: State)
        ensures
            r.cached_4x4_stm() is None,
            r.cached_3x2_stm() is None,
            r.cached_3x2_mtm() is None,
            r.pending_3x2_stm() is None,
            r.pending_3x2_mtm() is None,
    {
        State {
            solver_4x4_stm: None,
            solver_3x2_stm: None,
            solver_3x2_mtm: None,
            fresh_3x2_stm: None,
            fresh_3x2_mtm: None,
        }
    }

    /// The file that persists the lookup table for a shape and metric,
    /// under the cache directory: one file per served combination with
    /// a disk-backed table, shared by the shape and its transpose.
    pub fn table_file_name(w: u64, h: u64, m: Metric) -> (r: Option<&'static str>)
        ensures
            match r {
                Some(s) => strategy_spec(w as int, h as int, m) is Small3x2 && (m
                    == Metric::Stm ==> s@ == "3x2-stm.bin"@) && (m == Metric::Mtm ==> s@
                    == "3x2-mtm.bin"@),
                None => !(strategy_spec(w as int, h as int, m) is Small3x2),
            },
    {
        match strategy(w, h, m) {
            Strategy::Small3x2 => match m {
                Metric::Stm => Some("3x2-stm.bin"),
                Metric::Mtm => Some("3x2-mtm.bin"),
            },
            _ => None,
        }
    }

    /// Hands a loaded solver to the cache. The cache keeps its own
    /// solver when one is already there: at most one solver ever
    /// serves the slot. The solver must come from a table that passed
    /// the integrity checks, as a freshly built one does.
    pub fn install_solver_3x2_stm(&mut self, s: SmallSolver<3, 2, 6, Stm>)
        ensures
            final (self).cached_3x2_stm() is Some,
            old(self).retains(*final (self)),
            old(self).cached_3x2_stm() is None ==> final (self).cached_3x2_stm() == Some(s),
            final (self).cached_4x4_stm() == old(self).cached_4x4_stm(),
            final (self).cached_3x2_mtm() == old(self).cached_3x2_mtm(),
            final (self).pending_3x2_stm() == old(self).pending_3x2_stm(),
            final (self).pending_3x2_mtm() == old(self).pending_3x2_mtm(),
    {
        if self.solver_3x2_stm.is_none() {
            self.solver_3x2_stm = Some(s);
        }
    }

    /// Hands a loaded solver to the cache; see `install_solver_3x2_stm`.
    pub fn install_solver_3x2_mtm(&mut self, s: SmallSolver<3, 2, 6, Mtm>)
        ensures
            final (self).cached_3x2_mtm() is Some,
            old(self).retains(*final (self)),
            old(self).cached_3x2_mtm() is None ==> final (self).cached_3x2_mtm() == Some(s),
            final (self).cached_4x4_stm() == old(self).cached_4x4_stm(),
            final (self).cached_3x2_stm() == old(self).cached_3x2_stm(),
            final (self).pending_3x2_stm() == old(self).pending_3x2_stm(),
            final (self).pending_3x2_mtm() == old(self).pending_3x2_mtm(),
    {
        if self.solver_3x2_mtm.is_none() {
            self.solver_3x2_mtm = Some(s);
        }
    }

    /// Takes the file bytes of a freshly built single-tile-metric
    /// table, for writing to its file.
    pub fn take_fresh_table_3x2_stm(&mut self) -> (r: Option<Vec<u8>>)
        ensures
            final (self).pending_3x2_stm() is None,
            match r {
                Some(b) => old(self).pending_3x2_stm() == Some(b@),
                None => old(self).pending_3x2_stm() is None,
            },
            final (self).cached_4x4_stm() == old(self).cached_4x4_stm(),
            final (self).cached_3x2_stm() == old(self).cached_3x2_stm(),
            final (self).cached_3x2_mtm() == old(self).cached_3x2_mtm(),
            final (self).pending_3x2_mtm() == old(self).pending_3x2_mtm(),
    {
        self.fresh_3x2_stm.take()
    }

    /// Takes the file bytes of a freshly built multi-tile-metric
    /// table, for writing to its file.
    pub fn take_fresh_table_3x2_mtm(&mut self) -> (r: Option<Vec<u8>>)
        ensures
            final (self).pending_3x2_mtm() is None,
            match r {
                Some(b) => old(self).pending_3x2_mtm() == Some(b@),
                None => old(self).pending_3x2_mtm() is None,
            },
            final (self).cached_4x4_stm() == old(self).cached_4x4_stm(),
            final (self).cached_3x2_stm() == old(self).cached_3x2_stm(),
            final (self).cached_3x2_mtm() == old(self).cached_3x2_mtm(),
            final (self).pending_3x2_stm() == old(self).pending_3x2_stm(),
    {
        self.fresh_3x2_mtm.take()
    }

    /// Finds one optimal solution to the state under the metric: the
    /// answer of this cache's solver for the state's shape. At most one
    /// solver is ever built per served slot: a miss builds and stores
    /// the missing solver, a hit builds nothing, and for a disk-backed
    /// table a miss leaves the table's file bytes pending for the
    /// caller to persist; neither changes what is returned. The general
    /// solver can give up, but only when the state has no solution of
    /// at most 253 single-tile moves.
    pub fn solve(&mut self, puzzle: &slidy::puzzle::puzzle::Puzzle, metric: Metric) -> (r: Result<
        MoveSeq,
        SolveError,
    >)
        ensures
            ({
                let g = puzzle_grid(*puzzle);
                let st = strategy_spec(grid_w(g), grid_h(g), metric);
                &&& match r {
                    Ok(sol) => sol.wf() && optimal_solution(g, metric, sol@) && solvable_grid(g)
                        && !(st is Unsupported),
                    Err(e) => match e {
                        SolveError::UnsupportedConfiguration => st is Unsupported,
                        SolveError::Unsolvable => !(st is Unsupported) && !solvable_grid(g),
                        SolveError::SearchFailed => st is Generic && solvable_grid(g) && (forall|
                            s2: Seq<TileMove>,
                        |
                            moves_wf(s2) && #[trigger] apply_result(g, stm_of(s2)) == Some(
                                solved_grid(grid_w(g), grid_h(g)),
                            ) ==> len_of(s2, Metric::Stm) > 253),
                        SolveError::NotApplicable => false,
                    },
                }
                &&& (st is Pdb4x4 || st is Small3x2) ==> (r is Ok <==> solvable_grid(g))
            }),
            old(self).retains(*final (self)),
            ({
                let g = puzzle_grid(*puzzle);
                let st = strategy_spec(grid_w(g), grid_h(g), metric);
                &&& (st is Generic || st is Unsupported) ==> *final (self) == *old(self)
                &&& st is Pdb4x4 ==> final (self).cached_4x4_stm() is Some && final (
                self).cached_3x2_stm() == old(self).cached_3x2_stm() && final (
                self).cached_3x2_mtm() == old(self).cached_3x2_mtm() && final (
                self).pending_3x2_stm() == old(self).pending_3x2_stm() && final (
                self).pending_3x2_mtm() == old(self).pending_3x2_mtm()
                &&& (st is Small3x2 && metric == Metric::Stm) ==> final (
                self).cached_3x2_stm() is Some && final (self).cached_4x4_stm() == old(
                    self,
                ).cached_4x4_stm() && final (self).cached_3x2_mtm() == old(self).cached_3x2_mtm()
                    && final (self).pending_3x2_mtm() == old(self).pending_3x2_mtm() && (old(
                    self,
                ).cached_3x2_stm() is Some ==> final (self).pending_3x2_stm() == old(
                    self,
                ).pending_3x2_stm()) && (old(self).cached_3x2_stm() is None ==> final (
                self).pending_3x2_stm() is Some)
                &&& (st is Small3x2 && metric == Metric::Mtm) ==> final (
                self).cached_3x2_mtm() is Some && final (self).cached_4x4_stm() == old(
                    self,
                ).cached_4x4_stm() && final (self).cached_3x2_stm() == old(self).cached_3x2_stm()
                    && final (self).pending_3x2_stm() == old(self).pending_3x2_stm() && (old(
                    self,
                ).cached_3x2_mtm() is Some ==> final (self).pending_3x2_mtm() == old(
                    self,
                ).pending_3x2_mtm()) && (old(self).cached_3x2_mtm() is None ==> final (
                self).pending_3x2_mtm() is Some)
            }),
    {
        let d = puzzle_size(puzzle);
        match strategy(d.w, d.h, metric) {
            Strategy::Unsupported => Err(SolveError::UnsupportedConfiguration),
            Strategy::Generic => {
                let raw = match generic_solve_stm(puzzle) {
                    Ok(raw) => raw,
                    Err(e) => {
                        return Err(
                            match e {
                                SolverError::Unsolvable => SolveError::Unsolvable,
                                _ => SolveError::SearchFailed,
                            },
                        );
                    },
                };
                match MoveSeq::from_raw(raw) {
                    Ok(sol) => Ok(sol),
                    Err(_) => {
                        proof {
                            assert(false);
                        }
                        Err(SolveError::SearchFailed)
                    },
                }
            },
            Strategy::Pdb4x4 => {
                if self.solver_4x4_stm.is_none() {
                    self.solver_4x4_stm = Some(solver_4x4_new());
                }
                let s = match self.solver_4x4_stm.as_ref() {
                    Some(s) => s,
                    None => {
                        proof {
                            assert(false);
                        }
                        return Err(SolveError::SearchFailed);
                    },
                };
                let raw = match solver_4x4_solve(s, puzzle) {
                    Ok(raw) => raw,
                    Err(_) => {
                        return Err(SolveError::Unsolvable);
                    },
                };
                match MoveSeq::from_raw(raw) {
                    Ok(sol) => Ok(sol),
                    Err(_) => {
                        proof {
                            assert(false);
                        }
                        Err(SolveError::SearchFailed)
                    },
                }
            },
            Strategy::Small3x2 => match metric {
                Metric::Stm => {
                    if self.solver_3x2_stm.is_none() {
                        let pdb = pdb_3x2_stm_new();
                        let payload = pdb_3x2_stm_bytes(&pdb);
                        self.fresh_3x2_stm = Some(encode_table(&payload));
                        self.solver_3x2_stm = Some(solver_3x2_stm_with_pdb(pdb));
                    }
                    let s = match self.solver_3x2_stm.as_ref() {
                        Some(s) => s,
                        None => {
                            proof {
                                assert(false);
                            }
                            return Err(SolveError::SearchFailed);
                        },
                    };
                    let raw = match solver_3x2_stm_solve(s, puzzle) {
                        Ok(raw) => raw,
                        Err(_) => {
                            return Err(SolveError::Unsolvable);
                        },
                    };
                    match MoveSeq::from_raw(raw) {
                        Ok(sol) => Ok(sol),
                        Err(_) => {
                            proof {
                                assert(false);
                            }
                            Err(SolveError::SearchFailed)
                        },
                    }
                },
                Metric::Mtm => {
                    if self.solver_3x2_mtm.is_none() {
                        let pdb = pdb_3x2_mtm_new();
                        let payload = pdb_3x2_mtm_bytes(&pdb);
                        self.fresh_3x2_mtm = Some(encode_table(&payload));
                        self.solver_3x2_mtm = Some(solver_3x2_mtm_with_pdb(pdb));
                    }
                    let s = match self.solver_3x2_mtm.as_ref() {
                        Some(s) => s,
                        None => {
                            proof {
                                assert(false);
                            }
                            return Err(SolveError::SearchFailed);
                        },
                    };
                    let raw = match solver_3x2_mtm_solve(s, puzzle) {
                        Ok(raw) => raw,
                        Err(_) => {
                            return Err(SolveError::Unsolvable);
                        },
                    };
                    match MoveSeq::from_raw(raw) {
                        Ok(sol) => Ok(sol),
                        Err(_) => {
                            proof {
                                assert(false);
                            }
                            Err(SolveError::SearchFailed)
                        },
                    }
                },
            },
        }
    }

    /// Shortens a move sequence by re-solving sliding windows: the
    /// sequence is simplified, then every window of `window` length
    /// units under the metric is applied to the solved board of its
    /// smallest applicable size and re-solved optimally; a window whose
    /// optimal solution is shorter is replaced by that solution's
    /// inverse, and the cursor stays for another look, else it advances
    /// one unit. The result is never longer than the input; it equals
    /// the simplified input exactly when every window of the simplified
    /// input is already optimal, and then keeps the input's effect on
    /// every state the input fits (under the multi-tile metric, a
    /// replacement whose adoption would overflow the supported
    /// single-tile bound is also left alone, so only the forward
    /// direction is promised there).
    pub fn optimize(&mut self, seq: &MoveSeq, metric: Metric, window: u64) -> (r: Result<
        MoveSeq,
        SolveError,
    >)
        requires
            seq.wf(),
        ensures
            old(self).retains(*final (self)),
            match r {
                Ok(out) => {
                    &&& out.wf()
                    &&& len_of(out@, metric) <= len_of(seq@, metric)
                    &&& (all_windows_optimal(simplified_of(seq@), metric, window as int)
                        ==> out@ == simplified_of(seq@))
                    &&& (metric == Metric::Stm && out@ == simplified_of(seq@)
                        ==> all_windows_optimal(simplified_of(seq@), metric, window as int))
                    &&& (all_windows_optimal(simplified_of(seq@), metric, window as int)
                        ==> forall|g: Seq<Seq<u64>>|
                            #[trigger] apply_result(g, stm_of(seq@)) is Some ==> apply_result(
                                g,
                                stm_of(out@),
                            ) == apply_result(g, stm_of(seq@)))
                    &&& forall|g: Seq<Seq<u64>>|
                        #[trigger] apply_result(g, stm_of(seq@)) is Some ==> apply_result(
                            g,
                            stm_of(simplified_of(seq@)),
                        ) == apply_result(g, stm_of(seq@))
                },
                Err(e) => (e is UnsupportedConfiguration && metric == Metric::Mtm) || (
                e is SearchFailed && metric == Metric::Stm),
            },
    {
        let ghost smp = simplified_of(seq@);
        let mut cur = seq.simplified();
        let mut idx: u64 = 0;
        let mut total = cur.len_metric(metric);
        proof {
            crate::moves::lemma_count_le_sum(cur@);
        }
        while window <= total && idx <= total - window
            invariant
                cur.wf(),
                total == len_of(cur@, metric),
                total <= crate::moves::MAX_TOTAL_STM,
                smp == simplified_of(seq@),
                len_of(cur@, metric) <= len_of(smp, metric),
                len_of(smp, metric) <= len_of(seq@, metric),
                all_windows_optimal(smp, metric, window as int) ==> cur@ == smp,
                metric == Metric::Stm && cur@ == smp ==> windows_optimal_upto(
                    smp,
                    metric,
                    window as int,
                    idx as int,
                ),
                forall|g: Seq<Seq<u64>>|
                    #[trigger] apply_result(g, stm_of(seq@)) is Some ==> apply_result(
                        g,
                        stm_of(smp),
                    ) == apply_result(g, stm_of(seq@)),
                old(self).retains(*self),
            decreases total, total + 1 - idx,
        {
            let win = match cur.slice_metric(metric, idx, idx + window) {
                Ok(w) => w,
                Err(_) => {
                    proof {
                        assert(false);
                    }
                    return Err(SolveError::SearchFailed);
                },
            };
            proof {
                if cur@ == smp {
                    assert(window_dirs(smp, metric, idx as int, window as int) == stm_of(win@));
                }
            }
            let ghost ds = stm_of(win@);
            let dims = match win.min_applicable_size() {
                Some(d) => d,
                None => {
                    proof {
                        if metric == Metric::Stm && cur@ == smp {
                            assert(window_optimal(smp, metric, idx as int, window as int));
                            lemma_upto_extend(smp, metric, window as int, idx as int);
                        }
                    }
                    idx = idx + 1;
                    continue ;
                },
            };
            let (w0, h0) = dims;
            if w0 > MAX_BOARD_CELLS || h0 > MAX_BOARD_CELLS {
                proof {
                    if metric == Metric::Stm && cur@ == smp {
                        assert(window_optimal(smp, metric, idx as int, window as int));
                        lemma_upto_extend(smp, metric, window as int, idx as int);
                    }
                }
                idx = idx + 1;
                continue ;
            }
            proof {
                assert((w0 as int) * (h0 as int) <= 0x0100_0000 * 0x0100_0000)
                    by (nonlinear_arith)
                    requires
                        w0 <= 0x0100_0000,
                        h0 <= 0x0100_0000,
                ;
            }
            if w0 * h0 > MAX_BOARD_CELLS {
                proof {
                    if metric == Metric::Stm && cur@ == smp {
                        assert(window_optimal(smp, metric, idx as int, window as int));
                        lemma_upto_extend(smp, metric, window as int, idx as int);
                    }
                }
                idx = idx + 1;
                continue ;
            }
            let mut p = puzzle_new(w0, h0);
            let ghost start_grid = solved_grid(w0 as int, h0 as int);
            let ok = apply_moves(&mut p, &win);
            if !ok {
                proof {
                    assert(false);
                }
                return Err(SolveError::SearchFailed);
            }
            let ghost scr = puzzle_grid(p);
            let sol = match self.solve(&p, metric) {
                Ok(s) => s,
                Err(e) => {
                    proof {
                        assert(!(e is Unsolvable));
                        assert(!(e is NotApplicable));
                        assert(!(e is UnsupportedConfiguration && metric == Metric::Stm));
                        assert(!(e is SearchFailed && metric == Metric::Mtm)) by {
                            if metric == Metric::Mtm {
                                assert(!(strategy_spec(grid_w(scr), grid_h(scr), metric)
                                    is Generic));
                            }
                        }
                    }
                    return Err(e);
                },
            };
            let sol_len = sol.len_metric(metric);
            proof {
                // The inverse of the window solves the scramble, so the
                // optimal solution is no longer than the window.
                lemma_stm_of_inverse(win@);
                crate::moves::lemma_inverse_sum(win@);
                assert(apply_result(scr, stm_of(inverse_spec(win@))) == Some(start_grid));
                assert(grid_w(scr) == w0 && grid_h(scr) == h0) by {
                    crate::puzzle::lemma_solved_grid_wf(w0 as int, h0 as int);
                }
                assert(len_of(sol@, metric) <= len_of(inverse_spec(win@), metric));
                assert(len_of(inverse_spec(win@), metric) == window);
            }
            if sol_len == window {
                proof {
                    if metric == Metric::Stm && cur@ == smp {
                        // Every solution of the window's scramble is at
                        // least as long as this optimal one: the window
                        // is optimal.
                        assert(window_optimal(smp, metric, idx as int, window as int)) by {
                            assert(min_size_dirs(ds) == Some((w0 as int, h0 as int)));
                            assert forall|s2: Seq<TileMove>|
                                moves_wf(s2) && #[trigger] apply_result(
                                    applied(solved_grid(w0 as int, h0 as int), ds),
                                    stm_of(s2),
                                ) == Some(solved_grid(w0 as int, h0 as int)) implies len_of(
                                s2,
                                metric,
                            ) >= window as int by {
                                assert(applied(start_grid, ds) == scr);
                                assert(apply_result(scr, stm_of(s2)) == Some(
                                    solved_grid(grid_w(scr), grid_h(scr)),
                                ));
                                assert(len_of(s2, metric) >= len_of(sol@, metric));
                            }
                        }
                        lemma_upto_extend(smp, metric, window as int, idx as int);
                    }
                }
                idx = idx + 1;
            } else {
                proof {
                    assert(sol_len < window);
                    lemma_replacement_effect(
                        w0 as int,
                        h0 as int,
                        metric,
                        win@,
                        sol@,
                    );
                    if all_windows_optimal(smp, metric, window as int) {
                        // Every window of the simplified input is already
                        // optimal, so a strictly shorter solution cannot
                        // exist.
                        assert(cur@ == smp);
                        assert(window_optimal(smp, metric, idx as int, window as int));
                        assert(min_size_dirs(ds) == Some((w0 as int, h0 as int)));
                        assert(apply_result(applied(start_grid, ds), stm_of(sol@)) == Some(
                            solved_grid(w0 as int, h0 as int),
                        ));
                        assert(len_of(sol@, metric) >= window);
                        assert(false);
                    }
                }
                let pre = match cur.slice_metric(metric, 0, idx) {
                    Ok(s) => s,
                    Err(_) => {
                        proof {
                            assert(false);
                        }
                        return Err(SolveError::SearchFailed);
                    },
                };
                let suf = match cur.slice_metric(metric, idx + window, total) {
                    Ok(s) => s,
                    Err(_) => {
                        proof {
                            assert(false);
                        }
                        return Err(SolveError::SearchFailed);
                    },
                };
                let rep = sol.inverse();
                let head = match pre.concat(&rep) {
                    Ok(s) => s,
                    Err(_) => {
                        // Under the single-tile metric the new total is
                        // under the old one, so this cannot happen; a
                        // multi-tile replacement whose adoption would
                        // overflow the single-tile bound skips the window.
                        proof {
                            if metric == Metric::Stm {
                                lemma_sum_amts_concat(pre@, rep@);
                                assert(false);
                            }
                        }
                        idx = idx + 1;
                        continue ;
                    },
                };
                let next = match head.concat(&suf) {
                    Ok(s) => s,
                    Err(_) => {
                        proof {
                            if metric == Metric::Stm {
                                lemma_sum_amts_concat(pre@, rep@);
                                lemma_sum_amts_concat(head@, suf@);
                                assert(false);
                            }
                        }
                        idx = idx + 1;
                        continue ;
                    },
                };
                proof {
                    lemma_sum_amts_concat(pre@, rep@);
                    lemma_sum_amts_concat(pre@ + rep@, suf@);
                    assert(len_of(next@, metric) == total - window + sol_len);
                    assert(next@ != smp) by {
                        assert(len_of(next@, metric) < len_of(smp, metric));
                    }
                }
                cur = next;
                total = total - window + sol_len;
            }
        }
        proof {
            if metric == Metric::Stm && cur@ == smp {
                assert(all_windows_optimal(smp, metric, window as int)) by {
                    assert forall|i: int|
                        0 <= i && i + window <= len_of(smp, metric) implies #[trigger] window_optimal(
                        smp,
                        metric,
                        i,
                        window as int,
                    ) by {
                        assert(window <= total);
                        assert(i < idx);
                    }
                }
            }
        }
        Ok(cur)
    }

    /// How many single-tile moves longer `alg` is than an optimal
    /// solution of the scramble it solves on the given board: zero
    /// exactly when `alg` is optimal. The search gives up only when the
    /// scramble has no solution of at most 253 single-tile moves.
    pub fn opt_diff(&mut self, alg: &MoveSeq, size: Size) -> (r: Result<u64, SolveError>)
        requires
            alg.wf(),
            size_ok(size),
        ensures
            old(self).retains(*final (self)),
            ({
                let s = solved_grid(size.0 as int, size.1 as int);
                let inv = stm_of(inverse_spec(alg@));
                match r {
                    Ok(d) => can_apply(s, inv) && exists|sol: Seq<TileMove>|
                        #[trigger] optimal_solution(applied(s, inv), Metric::Stm, sol) && d
                            + len_of(sol, Metric::Stm) == len_of(alg@, Metric::Stm),
                    Err(e) => (e is NotApplicable && !can_apply(s, inv)) || (e is SearchFailed
                        && can_apply(s, inv) && (forall|s2: Seq<TileMove>|
                        moves_wf(s2) && #[trigger] apply_result(applied(s, inv), stm_of(s2))
                            == Some(s) ==> len_of(s2, Metric::Stm) > 253)),
                }
            }),
    {
        let inv = alg.inverse();
        let mut p = puzzle_new(size.0 as u64, size.1 as u64);
        proof {
            crate::puzzle::lemma_solved_grid_wf(size.0 as int, size.1 as int);
        }
        if !apply_moves(&mut p, &inv) {
            return Err(SolveError::NotApplicable);
        }
        let sol = match self.solve(&p, Metric::Stm) {
            Ok(s) => s,
            Err(e) => {
                proof {
                    assert(e is SearchFailed);
                }
                return Err(SolveError::SearchFailed);
            },
        };
        proof {
            lemma_stm_of_inverse(alg@);
            crate::moves::lemma_inv_dirs_involution(stm_of(alg@));
            assert(apply_result(puzzle_grid(p), stm_of(alg@)) == Some(
                solved_grid(size.0 as int, size.1 as int),
            ));
            assert(len_of(sol@, Metric::Stm) <= len_of(alg@, Metric::Stm));
        }
        let a = alg.len_metric(Metric::Stm);
        let o = sol.len_metric(Metric::Stm);
        Ok(a - o)
    }

    /// Whether to keep `alg` when filtering a list of solutions: true
    /// for an optimal sequence, or, with `keep_suboptimal`, true for a
    /// strictly sub-optimal one. A sequence that does not fit the
    /// board is never kept. The search gives up only when the scramble
    /// has no solution of at most 253 single-tile moves.
    pub fn filter_optimal(&mut self, alg: &MoveSeq, size: Size, keep_suboptimal: bool) -> (r:
        Result<bool, SolveError>)
        requires
            alg.wf(),
            size_ok(size),
        ensures
            old(self).retains(*final (self)),
            ({
                let s = solved_grid(size.0 as int, size.1 as int);
                let inv = stm_of(inverse_spec(alg@));
                match r {
                    Ok(b) => {
                        if !can_apply(s, inv) {
                            b == false
                        } else {
                            exists|sol: Seq<TileMove>|
                                #[trigger] optimal_solution(applied(s, inv), Metric::Stm, sol) && b
                                    == ((len_of(alg@, Metric::Stm) == len_of(sol, Metric::Stm))
                                    != keep_suboptimal)
                        }
                    },
                    Err(e) => e is SearchFailed && can_apply(s, inv) && (forall|s2: Seq<TileMove>|
                        moves_wf(s2) && #[trigger] apply_result(applied(s, inv), stm_of(s2))
                            == Some(s) ==> len_of(s2, Metric::Stm) > 253),
                }
            }),
    {
        let inv = alg.inverse();
        let mut p = puzzle_new(size.0 as u64, size.1 as u64);
        proof {
            crate::puzzle::lemma_solved_grid_wf(size.0 as int, size.1 as int);
        }
        if !apply_moves(&mut p, &inv) {
            return Ok(false);
        }
        let sol = match self.solve(&p, Metric::Stm) {
            Ok(s) => s,
            Err(e) => {
                proof {
                    assert(e is SearchFailed);
                }
                return Err(SolveError::SearchFailed);
            },
        };
        let a = alg.len_metric(Metric::Stm);
        let o = sol.len_metric(Metric::Stm);
        Ok((a == o) != keep_suboptimal)
    }
}

/// The single-tile moves spanned by the window of `len` units starting
/// at `idx` under metric `m`.
pub open spec fn window_dirs(s: Seq<TileMove>, m: Metric, idx: int, len: int) -> Seq<Dir> {
    match m {
        Metric::Stm => stm_of(s).subrange(idx, idx + len),
        Metric::Mtm => stm_of(s.subrange(idx, idx + len)),
    }
}

/// Whether the window of `len` units at `idx` is already optimal: no
/// move sequence solves its scramble in fewer units of `m`. Windows
/// that fit no board, and windows whose smallest board is over the
/// in-memory cap, are out of the optimizer's reach and count as
/// optimal here.
pub open spec fn window_optimal(s: Seq<TileMove>, m: Metric, idx: int, len: int) -> bool {
    let ds = window_dirs(s, m, idx, len);
    match min_size_dirs(ds) {
        None => true,
        Some(d) => {
            ||| d.0 > MAX_BOARD_CELLS
            ||| d.1 > MAX_BOARD_CELLS
            ||| d.0 * d.1 > MAX_BOARD_CELLS
            ||| forall|s2: Seq<TileMove>|
                moves_wf(s2) && #[trigger] apply_result(
                    applied(solved_grid(d.0, d.1), ds),
                    stm_of(s2),
                ) == Some(solved_grid(d.0, d.1)) ==> len_of(s2, m) >= len
        },
    }
}

/// Every window of `len` units in `s` is already optimal under `m`.
pub open spec fn all_windows_optimal(s: Seq<TileMove>, m: Metric, len: int) -> bool {
    forall|i: int|
        0 <= i && i + len <= len_of(s, m) ==> #[trigger] window_optimal(s, m, i, len)
}

/// Every window starting before `upto` is already optimal.
pub open spec fn windows_optimal_upto(s: Seq<TileMove>, m: Metric, len: int, upto: int) -> bool {
    forall|i: int|
        0 <= i < upto && i + len <= len_of(s, m) ==> #[trigger] window_optimal(s, m, i, len)
}

/// One more window seen optimal extends the examined span by one.
proof fn lemma_upto_extend(s: Seq<TileMove>, m: Metric, len: int, idx: int)
    requires
        windows_optimal_upto(s, m, len, idx),
        window_optimal(s, m, idx, len),
    ensures
        windows_optimal_upto(s, m, len, idx + 1),
{
    assert forall|i: int|
        0 <= i < idx + 1 && i + len <= len_of(s, m) implies #[trigger] window_optimal(
        s,
        m,
        i,
        len,
    ) by {}
}

/// Cache determinism: the length of an optimal solution is a function
/// of the state and the metric alone, never of cache history or call
/// order. Any two optimal solutions of one state have equal length.
pub proof fn lemma_solve_deterministic(
    g: Seq<Seq<u64>>,
    m: Metric,
    s1: Seq<TileMove>,
    s2: Seq<TileMove>,
)
    requires
        optimal_solution(g, m, s1),
        optimal_solution(g, m, s2),
    ensures
        len_of(s1, m) == len_of(s2, m),
{
    assert(len_of(s1, m) >= len_of(s2, m));
    assert(len_of(s2, m) >= len_of(s1, m));
}

/// Key normalization: a board shape and its transpose are served by
/// the same strategy, so they share one cached solver slot and one
/// lookup-table file.
pub proof fn lemma_key_normalization(w: int, h: int, m: Metric)
    ensures
        strategy_spec(w, h, m) == strategy_spec(h, w, m),
{
}

/// Replacement preservation: a window and the inverse of an optimal
/// solution of the window's scramble have the same effect on the
/// solved board of the window's smallest applicable size.
pub proof fn lemma_replacement_effect(
    w: int,
    h: int,
    m: Metric,
    win: Seq<TileMove>,
    sol: Seq<TileMove>,
)
    requires
        can_apply(solved_grid(w, h), stm_of(win)),
        grid_w(applied(solved_grid(w, h), stm_of(win))) == w,
        grid_h(applied(solved_grid(w, h), stm_of(win))) == h,
        optimal_solution(applied(solved_grid(w, h), stm_of(win)), m, sol),
    ensures
        apply_result(solved_grid(w, h), stm_of(inverse_spec(sol))) == apply_result(
            solved_grid(w, h),
            stm_of(win),
        ),
{
    lemma_stm_of_inverse(sol);
}

} // verus!


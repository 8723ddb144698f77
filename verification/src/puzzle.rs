use vstd::prelude::*;

use crate::enums::StateFormatter;
use crate::enums::Metric;
use crate::moves::{inv_dirs, len_of, moves_wf, stm_of, Dir, MoveSeq, TileMove};
use crate::size::Size;

use slidy::algorithm::algorithm::Algorithm;
use slidy::algorithm::direction::Direction;
use slidy::puzzle::label::label::RowGrids;
use slidy::puzzle::scrambler::{RandomMoves, RandomState, Scrambler};
use slidy::solver::heuristic::{manhattan::ManhattanDistance, Heuristic};
use slidy::puzzle::sliding_puzzle::SlidingPuzzle;

verus! {

#[verifier::external_type_specification]
#[verifier::external_body]
pub struct ExPuzzle(slidy::puzzle::puzzle::Puzzle);

/// The contents of a puzzle state: one row per sequence, each cell the
/// piece standing there, `0` for the gap.
pub uninterp spec fn puzzle_grid(p: slidy::puzzle::puzzle::Puzzle) -> Seq<Seq<u64>>;

/// Whether a grid names a state that can be brought to the solved
/// state by legal moves. What slidy's `is_solvable` returns.
pub uninterp spec fn solvable_grid(g: Seq<Seq<u64>>) -> bool;

/// What slidy's `try_apply_alg` computes: the grid after applying the
/// single-tile moves, or `None` when some move does not fit the board.
pub uninterp spec fn apply_result(g: Seq<Seq<u64>>, ds: Seq<Dir>) -> Option<Seq<Seq<u64>>>;

/// What slidy's `try_embed_into` computes: the target grid with the
/// state placed into its corner, or `None` when it does not fit.
pub uninterp spec fn embed_result(gs: Seq<Seq<u64>>, gt: Seq<Seq<u64>>) -> Option<Seq<Seq<u64>>>;

/// What slidy's one-line display writes for a grid.
pub uninterp spec fn inline_str_of(g: Seq<Seq<u64>>) -> Seq<char>;

/// What slidy's grid display writes for a grid.
pub uninterp spec fn grid_str_of(g: Seq<Seq<u64>>) -> Seq<char>;

pub open spec fn can_apply(g: Seq<Seq<u64>>, ds: Seq<Dir>) -> bool {
    apply_result(g, ds) is Some
}

pub open spec fn applied(g: Seq<Seq<u64>>, ds: Seq<Dir>) -> Seq<Seq<u64>> {
    apply_result(g, ds).unwrap()
}

/// A rectangular grid with at least one cell.
pub open spec fn grid_wf(g: Seq<Seq<u64>>) -> bool {
    &&& g.len() >= 1
    &&& g[0].len() >= 1
    &&& forall|y: int| 0 <= y < g.len() ==> #[trigger] g[y].len() == g[0].len()
}

pub open spec fn grid_w(g: Seq<Seq<u64>>) -> int {
    g[0].len() as int
}

pub open spec fn grid_h(g: Seq<Seq<u64>>) -> int {
    g.len() as int
}

pub open spec fn grid_area(g: Seq<Seq<u64>>) -> int {
    grid_w(g) * grid_h(g)
}

/// A grid whose cells all hold pieces of the board: every value is
/// below the cell count. Every puzzle value satisfies this.
pub open spec fn grid_perm(g: Seq<Seq<u64>>) -> bool {
    &&& grid_wf(g)
    &&& forall|y: int, x: int|
        0 <= y < g.len() && 0 <= x < g[0].len() ==> (#[trigger] g[y][x]) < grid_area(g)
}

/// The solved grid of a `w` by `h` board: pieces `1` to `w*h - 1` in
/// row-major order, the gap in the bottom-right corner.
pub open spec fn solved_grid(w: int, h: int) -> Seq<Seq<u64>> {
    Seq::new(
        h as nat,
        |y: int|
            Seq::new(
                w as nat,
                |x: int|
                    if y == h - 1 && x == w - 1 {
                        0u64
                    } else {
                        (y * w + x + 1) as u64
                    },
            ),
    )
}

pub open spec fn abs_diff_spec(a: int, b: int) -> int {
    if a >= b {
        a - b
    } else {
        b - a
    }
}

/// How far the piece in cell `(x, y)` stands from its solved cell,
/// walking the grid; the gap counts zero.
pub open spec fn cell_md(g: Seq<Seq<u64>>, x: int, y: int) -> int {
    let p = g[y][x] as int;
    let w = grid_w(g);
    if p == 0 {
        0
    } else {
        abs_diff_spec(x, (p - 1) % w) + abs_diff_spec(y, (p - 1) / w)
    }
}

pub open spec fn md_upto(g: Seq<Seq<u64>>, k: int) -> int
    decreases k,
{
    if k <= 0 {
        0
    } else {
        md_upto(g, k - 1) + cell_md(g, (k - 1) % grid_w(g), (k - 1) / grid_w(g))
    }
}

/// The sum of the Manhattan distances of all pieces from their solved
/// cells.
pub open spec fn md_spec(g: Seq<Seq<u64>>) -> int {
    md_upto(g, grid_area(g))
}

/// The in-memory size cap for boards this library will allocate.
pub const MAX_BOARD_CELLS: u64 = 0x0100_0000;

/// A size the library will build a board for.
pub open spec fn size_ok(s: Size) -> bool {
    1 <= s.0 && 1 <= s.1 && s.0 * s.1 <= MAX_BOARD_CELLS
}

/// Relies on slidy's Puzzle::new: builds the solved puzzle of the
/// given size, and a solved state is solvable.
#[verifier::external_body]
pub(crate) fn puzzle_new(w: u64, h: u64) -> (r: slidy::puzzle::puzzle::Puzzle)
    requires
        1 <= w,
        1 <= h,
        w * h <= MAX_BOARD_CELLS,
    ensures
        puzzle_grid(r) == solved_grid(w as int, h as int),
        solvable_grid(puzzle_grid(r)),
{
    slidy::puzzle::puzzle::Puzzle::new(slidy::puzzle::size::Size::new(w, h).unwrap())
}

/// A board shape, as told by a puzzle value.
#[derive(Clone, Copy, Debug, PartialEq, Eq, Structural)]
pub struct PuzzleDims {
    pub w: u64,
    pub h: u64,
}

/// The dims describe the grid, which holds each piece at most once.
pub open spec fn dims_of(r: PuzzleDims, g: Seq<Seq<u64>>) -> bool {
    r.w == grid_w(g) && r.h == grid_h(g) && grid_perm(g)
}

/// Relies on slidy's Puzzle::size: the width and height of the grid.
/// Every puzzle value holds a rectangular grid whose cells hold each
/// piece at most once, so the values stay below the cell count.
#[verifier::external_body]
pub(crate) fn puzzle_size(p: &slidy::puzzle::puzzle::Puzzle) -> (r: PuzzleDims)
    ensures
        dims_of(r, puzzle_grid(*p)),
{
    let s = p.size();
    PuzzleDims { w: s.width(), h: s.height() }
}

/// Relies on slidy's try_apply_alg: applies the moves when every step
/// fits the board, and otherwise leaves the state alone. Moves permute
/// pieces, so shape, contents and solvability are kept, and the
/// inverted moves lead back to the old state.
#[verifier::external_body]
pub(crate) fn apply_moves(p: &mut slidy::puzzle::puzzle::Puzzle, mv: &MoveSeq) -> (r: bool)
    requires
        mv.wf(),
    ensures
        r == can_apply(puzzle_grid(*old(p)), stm_of(mv@)),
        !r ==> *final(p) == *old(p),
        r ==> puzzle_grid(*final(p)) == applied(puzzle_grid(*old(p)), stm_of(mv@)),
        r ==> grid_perm(puzzle_grid(*final(p))) && grid_w(puzzle_grid(*final(p))) == grid_w(
            puzzle_grid(*old(p)),
        ) && grid_h(puzzle_grid(*final(p))) == grid_h(puzzle_grid(*old(p))),
        r ==> solvable_grid(puzzle_grid(*final(p))) == solvable_grid(puzzle_grid(*old(p))),
        r ==> apply_result(puzzle_grid(*final(p)), inv_dirs(stm_of(mv@))) == Some(
            puzzle_grid(*old(p)),
        ),
{
    let mut alg = Algorithm::new();
    for m in mv.moves().iter() {
        let d = match m.dir { Dir::Up => Direction::Up, Dir::Left => Direction::Left, Dir::Down => Direction::Down, Dir::Right => Direction::Right };
        let mut k: u64 = 0;
        while k < m.amt { alg.push_combine(d.into()); k += 1; }
    }
    p.try_apply_alg(&alg)
}

/// Relies on slidy's is_solvable: whether the state can be solved.
#[verifier::external_body]
pub(crate) fn puzzle_is_solvable(p: &slidy::puzzle::puzzle::Puzzle) -> (r: bool)
    ensures
        r == solvable_grid(puzzle_grid(*p)),
{
    p.is_solvable()
}

/// Relies on slidy's try_embed_into: writes the state into the target
/// when it fits, and otherwise leaves the target alone.
#[verifier::external_body]
pub(crate) fn embed_into(
    s: &slidy::puzzle::puzzle::Puzzle,
    t: &mut slidy::puzzle::puzzle::Puzzle,
) -> (r: bool)
    ensures
        r == (embed_result(puzzle_grid(*s), puzzle_grid(*old(t))) is Some),
        r ==> puzzle_grid(*final(t)) == embed_result(
            puzzle_grid(*s),
            puzzle_grid(*old(t)),
        ).unwrap(),
        !r ==> *final(t) == *old(t),
{
    s.try_embed_into(t)
}

/// Relies on slidy's display_inline: one line of text for the state,
/// a function of the grid alone.
#[verifier::external_body]
pub(crate) fn display_inline_string(p: &slidy::puzzle::puzzle::Puzzle) -> (r: String)
    ensures
        r@ == inline_str_of(puzzle_grid(*p)),
{
    p.display_inline().to_string()
}

/// Relies on slidy's display_grid: one line of text per row, a
/// function of the grid alone. Column widths come from the digit count
/// of the largest piece, so a board with no piece at all is excluded.
#[verifier::external_body]
pub(crate) fn display_grid_string(p: &slidy::puzzle::puzzle::Puzzle) -> (r: String)
    requires
        grid_area(puzzle_grid(*p)) > 1,
    ensures
        r@ == grid_str_of(puzzle_grid(*p)),
{
    p.display_grid().to_string()
}

/// Relies on slidy's ManhattanDistance bound under the row-major
/// labelling: the sum of each piece's Manhattan distance from its
/// solved cell, and, as its trait documents, a lower bound on the
/// number of single-tile moves of any solution.
#[verifier::external_body]
pub(crate) fn manhattan_bound(p: &slidy::puzzle::puzzle::Puzzle) -> (r: u64)
    requires
        md_spec(puzzle_grid(*p)) <= u64::MAX,
    ensures
        r == md_spec(puzzle_grid(*p)),
        forall|s2: Seq<TileMove>|
            moves_wf(s2) && #[trigger] apply_result(puzzle_grid(*p), stm_of(s2)) == Some(
                solved_grid(grid_w(puzzle_grid(*p)), grid_h(puzzle_grid(*p))),
            ) ==> len_of(s2, Metric::Stm) >= r,
{
    ManhattanDistance(&RowGrids).bound(p)
}

/// Relies on slidy's RandomState scrambler: valid for every board
/// shape, it always replaces the state with a random solvable state of
/// the same shape.
#[verifier::external_body]
pub(crate) fn scramble_random_state(p: &mut slidy::puzzle::puzzle::Puzzle) -> (r: bool)
    ensures
        r == true,
        r ==> grid_perm(puzzle_grid(*final(p))) && grid_w(puzzle_grid(*final(p))) == grid_w(
            puzzle_grid(*old(p)),
        ) && grid_h(puzzle_grid(*final(p))) == grid_h(puzzle_grid(*old(p))) && solvable_grid(
            puzzle_grid(*final(p)),
        ),
{
    RandomState.try_scramble(p)
}

/// Whether slidy's RandomMoves scrambler accepts the board shape and
/// flags: on one-row and one-column boards without backtracking and
/// without skipped illegal moves, the move count must stay below the
/// cell count, or the scrambler would run out of moves to draw.
pub open spec fn random_moves_valid(
    w: int,
    h: int,
    moves: u64,
    allow_backtracking: bool,
    allow_illegal_moves: bool,
) -> bool {
    ((w == 1 || h == 1) && !allow_backtracking && !allow_illegal_moves) ==> (moves as int) < w * h
}

/// Relies on slidy's RandomMoves scrambler: resets the state and
/// applies random legal moves, so the result stays solvable; it
/// scrambles exactly when its validity rule accepts the shape and
/// flags, and otherwise leaves the state alone. A one-cell board with
/// backtracking allowed but illegal moves disallowed passes that rule
/// yet leaves the scrambler with no move to draw, so the call would
/// never return: the contract excludes it.
#[verifier::external_body]
pub(crate) fn scramble_random_moves(
    p: &mut slidy::puzzle::puzzle::Puzzle,
    moves: u64,
    allow_backtracking: bool,
    allow_illegal_moves: bool,
) -> (r: bool)
    requires
        !(grid_area(puzzle_grid(*old(p))) == 1 && allow_backtracking && !allow_illegal_moves
            && moves >= 1),
    ensures
        r == random_moves_valid(
            grid_w(puzzle_grid(*old(p))),
            grid_h(puzzle_grid(*old(p))),
            moves,
            allow_backtracking,
            allow_illegal_moves,
        ),
        r ==> grid_perm(puzzle_grid(*final(p))) && grid_w(puzzle_grid(*final(p))) == grid_w(
            puzzle_grid(*old(p)),
        ) && grid_h(puzzle_grid(*final(p))) == grid_h(puzzle_grid(*old(p))) && solvable_grid(
            puzzle_grid(*final(p)),
        ),
        !r ==> *final(p) == *old(p),
{
    RandomMoves { moves, allow_backtracking, allow_illegal_moves }.try_scramble(p)
}

/// The solved grid is rectangular and holds each piece once.
pub proof fn lemma_solved_grid_wf(w: int, h: int)
    requires
        1 <= w,
        1 <= h,
        w * h <= 0xffff_ffff_ffff,
    ensures
        grid_wf(solved_grid(w, h)),
        grid_w(solved_grid(w, h)) == w,
        grid_h(solved_grid(w, h)) == h,
        grid_perm(solved_grid(w, h)),
{
    let g = solved_grid(w, h);
    assert(g.len() == h);
    assert(g[0].len() == w);
    assert forall|y: int| 0 <= y < g.len() implies #[trigger] g[y].len() == g[0].len() by {}
    assert forall|y: int, x: int|
        0 <= y < g.len() && 0 <= x < g[0].len() implies (#[trigger] g[y][x]) < grid_area(g) by {
        assert(grid_area(g) == w * h);
        assert(1 <= w * h) by (nonlinear_arith)
            requires
                1 <= w,
                1 <= h,
        ;
        assert(w * h == h * w) by (nonlinear_arith);
        if y == h - 1 && x == w - 1 {
            assert(g[y][x] == 0u64);
        } else {
            assert(y * w + x + 1 < h * w) by (nonlinear_arith)
                requires
                    0 <= y <= h - 1,
                    0 <= x <= w - 1,
                    1 <= w,
                    !(y == h - 1 && x == w - 1),
            ;
            assert(0 <= y * w + x + 1 <= 0xffff_ffff_ffff) by (nonlinear_arith)
                requires
                    0 <= y <= h - 1,
                    0 <= x <= w - 1,
                    1 <= w,
                    y * w + x + 1 < h * w,
                    w * h <= 0xffff_ffff_ffff,
                    w * h == h * w,
            ;
            assert(g[y][x] == (y * w + x + 1) as u64);
        }
    }
}

/// How a state is scrambled.
#[derive(Clone, Copy, Debug, PartialEq, Eq, Structural)]
pub enum ScrambleKind {
    /// Replace the state with a uniformly random solvable state.
    RandomState,
    /// Apply a number of random moves to the solved state.
    RandomMoves { moves: u64, allow_backtracking: bool, allow_illegal_moves: bool },
}

/// Applies `alg` to `state`, leaving the state alone when some move
/// does not fit the board.
pub fn apply(state: &mut slidy::puzzle::puzzle::Puzzle, alg: &MoveSeq) -> (r: bool)
    requires
        alg.wf(),
    ensures
        r == can_apply(puzzle_grid(*old(state)), stm_of(alg@)),
        r ==> puzzle_grid(*final(state)) == applied(puzzle_grid(*old(state)), stm_of(alg@)),
        !r ==> *final(state) == *old(state),
{
    apply_moves(state, alg)
}

/// Whether the state can be solved.
pub fn solvable(state: &slidy::puzzle::puzzle::Puzzle) -> (r: bool)
    ensures
        r == solvable_grid(puzzle_grid(*state)),
{
    puzzle_is_solvable(state)
}

/// The sum of the Manhattan distances of all pieces from their solved
/// cells, for solvable states: `None` for an unsolvable state, as well
/// as for a board too large to measure. The sum is a lower bound on
/// the single-tile length of every solution.
pub fn md(state: &slidy::puzzle::puzzle::Puzzle) -> (r: Option<u64>)
    ensures
        ({
            let g = puzzle_grid(*state);
            if solvable_grid(g) && grid_w(g) <= 0xffff && grid_h(g) <= 0xffff {
                r == Some(md_spec(g) as u64)
            } else {
                r is None
            }
        }),
        ({
            let g = puzzle_grid(*state);
            match r {
                Some(v) => forall|s2: Seq<TileMove>|
                    moves_wf(s2) && #[trigger] apply_result(g, stm_of(s2)) == Some(
                        solved_grid(grid_w(g), grid_h(g)),
                    ) ==> len_of(s2, Metric::Stm) >= v,
                None => true,
            }
        }),
{
    let d = puzzle_size(state);
    if d.w > 0xffff || d.h > 0xffff {
        return None;
    }
    if !puzzle_is_solvable(state) {
        return None;
    }
    proof {
        lemma_md_bound(puzzle_grid(*state));
    }
    Some(manhattan_bound(state))
}

/// Formats the state one way or the other. The grid layout derives its
/// column width from the largest piece, which a one-cell board does not
/// have: there the one-line form, a single `0`, stands in for it.
pub fn format_state(state: &slidy::puzzle::puzzle::Puzzle, f: StateFormatter) -> (r: String)
    ensures
        f == StateFormatter::Inline ==> r@ == inline_str_of(puzzle_grid(*state)),
        f == StateFormatter::Grid ==> r@ == if grid_area(puzzle_grid(*state)) > 1 {
            grid_str_of(puzzle_grid(*state))
        } else {
            inline_str_of(puzzle_grid(*state))
        },
{
    match f {
        StateFormatter::Inline => display_inline_string(state),
        StateFormatter::Grid => {
            let d = puzzle_size(state);
            if d.w > 1 || d.h > 1 {
                proof {
                    assert(grid_area(puzzle_grid(*state)) > 1) by (nonlinear_arith)
                        requires
                            grid_area(puzzle_grid(*state)) == grid_w(puzzle_grid(*state)) * grid_h(
                                puzzle_grid(*state),
                            ),
                            grid_w(puzzle_grid(*state)) >= 1,
                            grid_h(puzzle_grid(*state)) >= 1,
                            grid_w(puzzle_grid(*state)) > 1 || grid_h(puzzle_grid(*state)) > 1,
                    ;
                }
                display_grid_string(state)
            } else {
                proof {
                    let g = puzzle_grid(*state);
                    assert(grid_w(g) == 1 && grid_h(g) == 1);
                    assert(grid_area(g) == 1) by (nonlinear_arith)
                        requires
                            grid_area(g) == grid_w(g) * grid_h(g),
                            grid_w(g) == 1,
                            grid_h(g) == 1,
                    ;
                }
                display_inline_string(state)
            }
        },
    }
}

/// Applies `alg` to the solved state of the given size: the scrambled
/// state, or `None` when the moves do not fit that board.
pub fn apply_to_solved(alg: &MoveSeq, size: Size) -> (r: Option<slidy::puzzle::puzzle::Puzzle>)
    requires
        alg.wf(),
        size_ok(size),
    ensures
        ({
            let s = solved_grid(size.0 as int, size.1 as int);
            match r {
                Some(p) => can_apply(s, stm_of(alg@)) && puzzle_grid(p) == applied(
                    s,
                    stm_of(alg@),
                ),
                None => !can_apply(s, stm_of(alg@)),
            }
        }),
{
    let mut p = puzzle_new(size.0 as u64, size.1 as u64);
    if apply_moves(&mut p, alg) {
        Some(p)
    } else {
        None
    }
}

/// The scramble that `alg` solves on the given board: the inverse of
/// `alg` applied to the solved state, or `None` when it does not fit.
/// Applying `alg` to the returned state reaches the solved board.
pub fn from_solution(alg: &MoveSeq, size: Size) -> (r: Option<slidy::puzzle::puzzle::Puzzle>)
    requires
        alg.wf(),
        size_ok(size),
    ensures
        ({
            let s = solved_grid(size.0 as int, size.1 as int);
            let inv = stm_of(crate::moves::inverse_spec(alg@));
            match r {
                Some(p) => can_apply(s, inv) && puzzle_grid(p) == applied(s, inv)
                    && apply_result(puzzle_grid(p), stm_of(alg@)) == Some(s),
                None => !can_apply(s, inv),
            }
        }),
{
    let inv = alg.inverse();
    let mut p = puzzle_new(size.0 as u64, size.1 as u64);
    if apply_moves(&mut p, &inv) {
        proof {
            crate::moves::lemma_stm_of_inverse(alg@);
            crate::moves::lemma_inv_dirs_involution(stm_of(alg@));
        }
        Some(p)
    } else {
        None
    }
}

/// Embeds `state` into `target` when it fits.
pub fn embed(
    state: &slidy::puzzle::puzzle::Puzzle,
    target: &mut slidy::puzzle::puzzle::Puzzle,
) -> (r: bool)
    ensures
        r == (embed_result(puzzle_grid(*state), puzzle_grid(*old(target))) is Some),
        r ==> puzzle_grid(*final(target)) == embed_result(
            puzzle_grid(*state),
            puzzle_grid(*old(target)),
        ).unwrap(),
        !r ==> *final(target) == *old(target),
{
    embed_into(state, target)
}

/// Whether a scramble request is served: a random state always is; the
/// random-moves scrambler must accept the shape and flags, and a
/// one-cell board that cannot skip illegal moves is refused before it
/// could leave the scrambler with nothing to draw.
pub open spec fn scramble_served(size: Size, kind: ScrambleKind) -> bool {
    match kind {
        ScrambleKind::RandomState => true,
        ScrambleKind::RandomMoves { moves, allow_backtracking, allow_illegal_moves } => {
            &&& random_moves_valid(
                size.0 as int,
                size.1 as int,
                moves,
                allow_backtracking,
                allow_illegal_moves,
            )
            &&& !(size.0 == 1 && size.1 == 1 && allow_backtracking && !allow_illegal_moves
                && moves >= 1)
        },
    }
}

/// A fresh scramble of the given size: a solvable state exactly when
/// the scrambler serves the request, `None` otherwise.
pub fn scrambled_puzzle(size: Size, kind: ScrambleKind) -> (r: Option<
    slidy::puzzle::puzzle::Puzzle,
>)
    requires
        size_ok(size),
    ensures
        r is Some <==> scramble_served(size, kind),
        match r {
            Some(p) => grid_perm(puzzle_grid(p)) && grid_w(puzzle_grid(p)) == size.0 && grid_h(
                puzzle_grid(p),
            ) == size.1 && solvable_grid(puzzle_grid(p)),
            None => true,
        },
{
    if let ScrambleKind::RandomMoves { moves, allow_backtracking, allow_illegal_moves } = kind {
        if size.0 == 1 && size.1 == 1 && allow_backtracking && !allow_illegal_moves && moves >= 1 {
            return None;
        }
    }
    let mut p = puzzle_new(size.0 as u64, size.1 as u64);
    proof {
        lemma_solved_grid_wf(size.0 as int, size.1 as int);
        let g = puzzle_grid(p);
        assert(grid_area(g) == 1 <==> (size.0 == 1 && size.1 == 1)) by (nonlinear_arith)
            requires
                grid_area(g) == grid_w(g) * grid_h(g),
                grid_w(g) == size.0 as int,
                grid_h(g) == size.1 as int,
                size.0 >= 1,
                size.1 >= 1,
        ;
    }
    let ok = match kind {
        ScrambleKind::RandomState => scramble_random_state(&mut p),
        ScrambleKind::RandomMoves { moves, allow_backtracking, allow_illegal_moves } => {
            scramble_random_moves(&mut p, moves, allow_backtracking, allow_illegal_moves)
        },
    };
    if ok {
        Some(p)
    } else {
        None
    }
}

/// On the solved board every piece stands at home: the Manhattan
/// distance sum of the solved grid is zero.
pub proof fn lemma_md_of_solved(w: int, h: int)
    requires
        1 <= w,
        1 <= h,
        w * h <= 0xffff_ffff,
    ensures
        md_spec(solved_grid(w, h)) == 0,
{
    lemma_solved_grid_wf(w, h);
    lemma_md_upto_solved(w, h, w * h);
    assert(w * h >= 1) by (nonlinear_arith)
        requires
            1 <= w,
            1 <= h,
    ;
}

proof fn lemma_md_upto_solved(w: int, h: int, k: int)
    requires
        1 <= w,
        1 <= h,
        w * h <= 0xffff_ffff,
        0 <= k <= w * h,
    ensures
        md_upto(solved_grid(w, h), k) == 0,
    decreases k,
{
    let g = solved_grid(w, h);
    lemma_solved_grid_wf(w, h);
    if k > 0 {
        lemma_md_upto_solved(w, h, k - 1);
        let x = (k - 1) % w;
        let y = (k - 1) / w;
        vstd::arithmetic::div_mod::lemma_mod_division_less_than_divisor(k - 1, w);
        vstd::arithmetic::div_mod::lemma_fundamental_div_mod(k - 1, w);
        assert(0 <= y < h) by (nonlinear_arith)
            requires
                0 <= k - 1,
                1 <= w,
                0 <= x < w,
                k - 1 == w * y + x,
                k <= w * h,
        ;
        assert(cell_md(g, x, y) == 0) by {
            if y == h - 1 && x == w - 1 {
                assert(g[y][x] == 0u64);
            } else {
                let q = y * w + x + 1;
                assert(g[y][x] == q as u64);
                assert(0 <= q as u64 as int == q) by (nonlinear_arith)
                    requires
                        0 <= y < h,
                        0 <= x < w,
                        1 <= w,
                        w * h <= 0xffff_ffff,
                        q == y * w + x + 1,
                        y * w + x < w * h,
                ;
                vstd::arithmetic::div_mod::lemma_fundamental_div_mod_converse(q - 1, w, y, x);
                assert((q - 1) % w == x && (q - 1) / w == y);
            }
        }
    }
}

/// Each piece is at most a board walk away from home: the distance sum
/// of a permutation grid fits far below `u64`.
proof fn lemma_md_upto_bound(g: Seq<Seq<u64>>, k: int)
    requires
        grid_perm(g),
        grid_w(g) <= 0xffff,
        grid_h(g) <= 0xffff,
        0 <= k <= grid_area(g),
    ensures
        md_upto(g, k) <= k * 0x2_0000,
    decreases k,
{
    if k > 0 {
        lemma_md_upto_bound(g, k - 1);
        let w = grid_w(g);
        assert(grid_area(g) == w * g.len());
        let x = (k - 1) % w;
        let y = (k - 1) / w;
        vstd::arithmetic::div_mod::lemma_mod_division_less_than_divisor(k - 1, w);
        vstd::arithmetic::div_mod::lemma_fundamental_div_mod(k - 1, w);
        assert(0 <= y < g.len()) by (nonlinear_arith)
            requires
                0 <= k - 1,
                1 <= w,
                0 <= x < w,
                k - 1 == w * y + x,
                k <= w * g.len(),
        ;
        assert(cell_md(g, x, y) <= 0x2_0000) by {
            if g[y][x] as int != 0 {
                let p = g[y][x] as int;
                assert(p < grid_area(g));
                vstd::arithmetic::div_mod::lemma_mod_division_less_than_divisor(p - 1, w);
                vstd::arithmetic::div_mod::lemma_fundamental_div_mod(p - 1, w);
                assert((p - 1) / w < g.len()) by (nonlinear_arith)
                    requires
                        1 <= w,
                        0 <= (p - 1) % w < w,
                        p - 1 == w * ((p - 1) / w) + (p - 1) % w,
                        p < w * g.len(),
                ;
                assert((p - 1) / w >= 0) by (nonlinear_arith)
                    requires
                        1 <= w,
                        0 <= (p - 1) % w < w,
                        p - 1 == w * ((p - 1) / w) + (p - 1) % w,
                        1 <= p,
                ;
            }
        }
        assert(k * 0x2_0000 == (k - 1) * 0x2_0000 + 0x2_0000) by (nonlinear_arith);
    }
}

/// The distance sum of a moderate board fits in a `u64`.
proof fn lemma_md_bound(g: Seq<Seq<u64>>)
    requires
        grid_perm(g),
        grid_w(g) <= 0xffff,
        grid_h(g) <= 0xffff,
    ensures
        0 <= md_spec(g) <= u64::MAX,
{
    assert(grid_area(g) <= 0xffff * 0xffff) by (nonlinear_arith)
        requires
            1 <= grid_w(g) <= 0xffff,
            1 <= grid_h(g) <= 0xffff,
            grid_area(g) == grid_w(g) * grid_h(g),
    ;
    lemma_md_upto_bound(g, grid_area(g));
    assert(grid_area(g) * 0x2_0000 <= 0xffff * 0xffff * 0x2_0000) by (nonlinear_arith)
        requires
            0 <= grid_area(g) <= 0xffff * 0xffff,
    ;
    lemma_md_upto_nonneg(g, grid_area(g));
}

proof fn lemma_md_upto_nonneg(g: Seq<Seq<u64>>, k: int)
    requires
        grid_wf(g),
    ensures
        md_upto(g, k) >= 0,
    decreases k,
{
    if k > 0 {
        lemma_md_upto_nonneg(g, k - 1);
    }
}

} // verus!

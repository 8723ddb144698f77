use vstd::prelude::*;

use crate::moves::{
    len_of, moves_wf, stm_of, sum_amts, min_size_dirs, Dir, MoveSeq, MoveSeqError, TileMove,
};
use crate::puzzle::{apply_result, can_apply, solved_grid};

use slidy::algorithm::algorithm::Algorithm;
use slidy::algorithm::as_slice::AsAlgorithmSlice;
use slidy::algorithm::direction::Direction;
use crate::enums::Metric;

verus! {

/// What slidy's `simplify` leaves of a move list: consecutive moves on
/// one axis combined, complete cancellations removed. A function of the
/// moves alone.
pub uninterp spec fn simplified_of(s: Seq<TileMove>) -> Seq<TileMove>;

/// Relies on slidy's Algorithm::simplify: combining and cancelling
/// moves never lengthens the sequence under either metric, leaves
/// every amount positive, and keeps the effect on every state the
/// original moves fit.
#[verifier::external_body]
fn simplify_moves(mv: &MoveSeq) -> (r: Vec<TileMove>)
    requires
        mv.wf(),
    ensures
        r@ == simplified_of(mv@),
        moves_wf(r@),
        sum_amts(r@) <= sum_amts(mv@),
        r@.len() <= mv@.len(),
        forall|g: Seq<Seq<u64>>|
            #[trigger] apply_result(g, stm_of(mv@)) is Some ==> apply_result(g, stm_of(r@))
                == apply_result(g, stm_of(mv@)),
{
    let mut alg = Algorithm::new();
    for m in mv.moves().iter() {
        let d = match m.dir { Dir::Up => Direction::Up, Dir::Left => Direction::Left, Dir::Down => Direction::Down, Dir::Right => Direction::Right };
        let mut k: u64 = 0;
        while k < m.amt { alg.push_combine(d.into()); k += 1; }
    }
    alg.simplify();
    let back = |d: Direction| match d { Direction::Up => Dir::Up, Direction::Left => Dir::Left, Direction::Down => Dir::Down, Direction::Right => Dir::Right };
    alg.moves().iter().map(|m| TileMove { dir: back(m.direction()), amt: m.amount() }).collect()
}

/// Relies on slidy's min_applicable_size: the smallest board the moves
/// fit on when started from its solved state, or `None` when no board
/// admits them; they can then be applied to that board's solved state.
#[verifier::external_body]
fn min_applicable_size_raw(mv: &MoveSeq) -> (r: Option<(u64, u64)>)
    requires
        mv.wf(),
    ensures
        match r {
            Some(d) => min_size_dirs(stm_of(mv@)) == Some((d.0 as int, d.1 as int)) && 1 <= d.0
                && 1 <= d.1 && can_apply(solved_grid(d.0 as int, d.1 as int), stm_of(mv@)),
            None => min_size_dirs(stm_of(mv@)) is None,
        },
{
    let mut alg = Algorithm::new();
    for m in mv.moves().iter() {
        let d = match m.dir { Dir::Up => Direction::Up, Dir::Left => Direction::Left, Dir::Down => Direction::Down, Dir::Right => Direction::Right };
        let mut k: u64 = 0;
        while k < m.amt { alg.push_combine(d.into()); k += 1; }
    }
    alg.as_slice().min_applicable_size().map(|s| (s.width(), s.height()))
}

impl MoveSeq {
    /// The sequence with consecutive moves along one axis combined and
    /// complete cancellations removed; never longer than the input and
    /// equal to it in effect on every state the input fits.
    pub fn simplified(&self) -> (r: MoveSeq)
        requires
            self.wf(),
        ensures
            r@ == simplified_of(self@),
            r.wf(),
            len_of(r@, Metric::Stm) <= len_of(self@, Metric::Stm),
            len_of(r@, Metric::Mtm) <= len_of(self@, Metric::Mtm),
            forall|g: Seq<Seq<u64>>|
                #[trigger] apply_result(g, stm_of(self@)) is Some ==> apply_result(
                    g,
                    stm_of(r@),
                ) == apply_result(g, stm_of(self@)),
    {
        let raw = simplify_moves(self);
        match MoveSeq::from_raw(raw) {
            Ok(s) => s,
            Err(_) => {
                proof {
                    assert(false);
                }
                MoveSeq::empty()
            },
        }
    }

    /// The smallest board this sequence can be applied to, starting
    /// from the solved state, or `None` when there is none.
    pub fn min_applicable_size(&self) -> (r: Option<(u64, u64)>)
        requires
            self.wf(),
        ensures
            match r {
                Some(d) => min_size_dirs(stm_of(self@)) == Some((d.0 as int, d.1 as int)) && 1
                    <= d.0 && 1 <= d.1 && can_apply(
                    solved_grid(d.0 as int, d.1 as int),
                    stm_of(self@),
                ),
                None => min_size_dirs(stm_of(self@)) is None,
            },
    {
        min_applicable_size_raw(self)
    }
}

} // verus!

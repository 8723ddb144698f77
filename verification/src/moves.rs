use vstd::prelude::*;

use crate::enums::Metric;

verus! {

/// A single-tile move direction: the direction the moved tile travels.
#[derive(Clone, Copy, Debug, PartialEq, Eq, Structural)]
pub enum Dir {
    Up,
    Left,
    Down,
    Right,
}

impl Dir {
    /// The direction that undoes this one.
    pub open spec fn flip_spec(self) -> Dir {
        match self {
            Dir::Up => Dir::Down,
            Dir::Down => Dir::Up,
            Dir::Left => Dir::Right,
            Dir::Right => Dir::Left,
        }
    }

    pub fn flip(self) -> (r: Dir)
        ensures
            r == self.flip_spec(),
    {
        match self {
            Dir::Up => Dir::Down,
            Dir::Down => Dir::Up,
            Dir::Left => Dir::Right,
            Dir::Right => Dir::Left,
        }
    }
}

/// One move: a direction and how many tiles slide that way in turn.
#[derive(Clone, Copy, Debug, PartialEq, Eq, Structural)]
pub struct TileMove {
    pub dir: Dir,
    pub amt: u64,
}

/// A move never moves zero tiles.
pub open spec fn move_wf(m: TileMove) -> bool {
    1 <= m.amt
}

pub open spec fn moves_wf(s: Seq<TileMove>) -> bool {
    forall|i: int| 0 <= i < s.len() ==> move_wf(#[trigger] s[i])
}

/// The total number of single-tile moves written by `s`.
pub open spec fn sum_amts(s: Seq<TileMove>) -> int
    decreases s.len(),
{
    if s.len() == 0 {
        0
    } else {
        sum_amts(s.drop_last()) + s.last().amt
    }
}

/// `s` expanded into its single-tile moves.
pub open spec fn stm_of(s: Seq<TileMove>) -> Seq<Dir>
    decreases s.len(),
{
    if s.len() == 0 {
        Seq::empty()
    } else {
        stm_of(s.drop_last()) + Seq::new(s.last().amt as nat, |i: int| s.last().dir)
    }
}

/// The length of `s` under a metric: single-tile moves count their
/// amount, multi-tile moves count one each.
pub open spec fn len_of(s: Seq<TileMove>, m: Metric) -> int {
    match m {
        Metric::Stm => sum_amts(s),
        Metric::Mtm => s.len() as int,
    }
}

/// The sequence that undoes `s`: reversed, with each direction flipped.
pub open spec fn inverse_spec(s: Seq<TileMove>) -> Seq<TileMove> {
    Seq::new(
        s.len(),
        |i: int| TileMove { dir: s[s.len() - 1 - i].dir.flip_spec(), amt: s[s.len() - 1 - i].amt },
    )
}

/// The single-tile moves that undo `ds`: reversed, each flipped.
pub open spec fn inv_dirs(ds: Seq<Dir>) -> Seq<Dir> {
    Seq::new(ds.len(), |i: int| ds[ds.len() - 1 - i].flip_spec())
}

/// One step of the gap walk: where the gap sits after one single-tile
/// move, relative to a start at the bottom-right corner, with `x`
/// growing leftwards and `y` growing upwards. `None` when the move
/// would pull the gap past the starting corner, which no solved puzzle
/// of any size allows.
pub open spec fn gap_step(p: (int, int), d: Dir) -> Option<(int, int)> {
    let q = match d {
        Dir::Up => (p.0, p.1 - 1),
        Dir::Left => (p.0 - 1, p.1),
        Dir::Down => (p.0, p.1 + 1),
        Dir::Right => (p.0 + 1, p.1),
    };
    if q.0 < 0 || q.1 < 0 {
        None
    } else {
        Some(q)
    }
}

/// The gap walk over `ds`: the gap's final position and the farthest
/// it ever stood from the starting corner, or `None` when some step
/// leaves every possible board.
pub open spec fn gap_walk(ds: Seq<Dir>) -> Option<((int, int), (int, int))>
    decreases ds.len(),
{
    if ds.len() == 0 {
        Some(((0, 0), (0, 0)))
    } else {
        match gap_walk(ds.drop_last()) {
            None => None,
            Some((p, m)) => match gap_step(p, ds.last()) {
                None => None,
                Some(q) => Some(
                    (
                        q,
                        (
                            if q.0 > m.0 {
                                q.0
                            } else {
                                m.0
                            },
                            if q.1 > m.1 {
                                q.1
                            } else {
                                m.1
                            },
                        ),
                    ),
                ),
            },
        }
    }
}

/// The smallest board a sequence of single-tile moves can act on, when
/// started from a solved board with the gap at the bottom right: one
/// more than the gap's farthest excursion in each direction. `None`
/// when no board admits the moves.
pub open spec fn min_size_dirs(ds: Seq<Dir>) -> Option<(int, int)> {
    match gap_walk(ds) {
        None => None,
        Some((p, m)) => Some((1 + m.0, 1 + m.1)),
    }
}

/// The largest total single-tile length a sequence may carry, so that
/// every length computation fits comfortably in a `u64`.
pub const MAX_TOTAL_STM: u64 = 0xffff_ffff;

/// Error for building a sequence from raw moves.
#[derive(Clone, Copy, Debug, PartialEq, Eq, Structural)]
pub enum MoveSeqError {
    /// A move with amount zero was given.
    ZeroAmount,
    /// The total single-tile length does not fit the supported bound.
    TooLong,
}

/// Error for slicing a sequence out of range.
#[derive(Clone, Copy, Debug, PartialEq, Eq, Structural)]
pub enum SliceError {
    /// The range runs backwards.
    UnorderedRange,
    /// The range reaches past the end of the sequence.
    OutOfRange,
}

pub proof fn lemma_sum_amts_nonneg(s: Seq<TileMove>)
    ensures
        sum_amts(s) >= 0,
    decreases s.len(),
{
    if s.len() > 0 {
        lemma_sum_amts_nonneg(s.drop_last());
    }
}

/// With every amount at least one, the move count bounds the total.
pub proof fn lemma_count_le_sum(s: Seq<TileMove>)
    requires
        moves_wf(s),
    ensures
        s.len() <= sum_amts(s),
    decreases s.len(),
{
    if s.len() > 0 {
        assert(moves_wf(s.drop_last())) by {
            assert(forall|i: int|
                0 <= i < s.len() - 1 ==> s.drop_last()[i] == #[trigger] s[i]);
        }
        lemma_count_le_sum(s.drop_last());
        assert(move_wf(s[s.len() - 1]));
    }
}

pub proof fn lemma_sum_amts_prefix(s: Seq<TileMove>, i: int)
    requires
        0 <= i <= s.len(),
    ensures
        sum_amts(s.subrange(0, i)) <= sum_amts(s),
    decreases s.len() - i,
{
    if i < s.len() {
        lemma_sum_amts_prefix(s, i + 1);
        assert(s.subrange(0, i + 1).drop_last() =~= s.subrange(0, i));
        assert(sum_amts(s.subrange(0, i)) <= sum_amts(s.subrange(0, i + 1)));
    } else {
        assert(s.subrange(0, i) =~= s);
    }
}

pub proof fn lemma_sum_amts_concat(a: Seq<TileMove>, b: Seq<TileMove>)
    ensures
        sum_amts(a + b) == sum_amts(a) + sum_amts(b),
    decreases b.len(),
{
    if b.len() == 0 {
        assert(a + b =~= a);
    } else {
        lemma_sum_amts_concat(a, b.drop_last());
        assert((a + b).drop_last() =~= a + b.drop_last());
        assert((a + b).last() == b.last());
    }
}

pub proof fn lemma_stm_of_concat(a: Seq<TileMove>, b: Seq<TileMove>)
    ensures
        stm_of(a + b) == stm_of(a) + stm_of(b),
    decreases b.len(),
{
    if b.len() == 0 {
        assert(a + b =~= a);
        assert(stm_of(b) =~= Seq::<Dir>::empty());
        assert(stm_of(a) + stm_of(b) =~= stm_of(a));
    } else {
        lemma_stm_of_concat(a, b.drop_last());
        assert((a + b).drop_last() =~= a + b.drop_last());
        assert((a + b).last() == b.last());
        assert(stm_of(a + b) =~= stm_of(a) + stm_of(b)) by {
            assert(stm_of(a + b) == stm_of(a + b.drop_last()) + Seq::new(
                b.last().amt as nat,
                |i: int| b.last().dir,
            ));
            assert(stm_of(b) == stm_of(b.drop_last()) + Seq::new(
                b.last().amt as nat,
                |i: int| b.last().dir,
            ));
        }
    }
}

pub proof fn lemma_stm_of_len(s: Seq<TileMove>)
    ensures
        stm_of(s).len() == sum_amts(s),
    decreases s.len(),
{
    if s.len() > 0 {
        lemma_stm_of_len(s.drop_last());
        lemma_sum_amts_nonneg(s.drop_last());
    }
}

pub proof fn lemma_inverse_sum(s: Seq<TileMove>)
    ensures
        sum_amts(inverse_spec(s)) == sum_amts(s),
        moves_wf(s) ==> moves_wf(inverse_spec(s)),
    decreases s.len(),
{
    if s.len() == 0 {
        assert(inverse_spec(s) =~= Seq::<TileMove>::empty());
    } else {
        lemma_inverse_sum(s.drop_first());
        assert(inverse_spec(s).drop_last() =~= inverse_spec(s.drop_first()));
        assert(inverse_spec(s).last().amt == s[0].amt);
        assert(sum_amts(inverse_spec(s)) == sum_amts(inverse_spec(s.drop_first())) + s[0].amt);
        assert(sum_amts(s) == sum_amts(s.drop_first()) + s[0].amt) by {
            lemma_sum_first(s);
        }
    }
}

/// Expanding from the front: the first move's repetition, then the rest.
proof fn lemma_stm_of_first(s: Seq<TileMove>)
    requires
        s.len() > 0,
    ensures
        stm_of(s) == Seq::new(s[0].amt as nat, |q: int| s[0].dir) + stm_of(s.drop_first()),
{
    let head = seq![s[0]];
    assert(s =~= head + s.drop_first());
    lemma_stm_of_concat(head, s.drop_first());
    assert(stm_of(head) =~= Seq::new(s[0].amt as nat, |q: int| s[0].dir)) by {
        assert(head.drop_last() =~= Seq::<TileMove>::empty());
        assert(stm_of(head.drop_last()) == Seq::<Dir>::empty());
        assert(head.last() == s[0]);
        assert(stm_of(head) == Seq::<Dir>::empty() + Seq::new(s[0].amt as nat, |q: int| s[0].dir));
    }
}

/// Inverting a move list and expanding it is expanding it and
/// inverting the single-tile moves.
pub proof fn lemma_stm_of_inverse(s: Seq<TileMove>)
    ensures
        stm_of(inverse_spec(s)) == inv_dirs(stm_of(s)),
    decreases s.len(),
{
    if s.len() == 0 {
        assert(inverse_spec(s) =~= Seq::<TileMove>::empty());
        assert(stm_of(inverse_spec(s)) =~= inv_dirs(stm_of(s)));
    } else {
        lemma_stm_of_inverse(s.drop_first());
        assert(inverse_spec(s).drop_last() =~= inverse_spec(s.drop_first()));
        assert(inverse_spec(s).last() == TileMove { dir: s[0].dir.flip_spec(), amt: s[0].amt });
        lemma_stm_of_first(s);
        lemma_stm_of_len(s.drop_first());
        lemma_sum_amts_nonneg(s.drop_first());
        let head_rep = Seq::new(s[0].amt as nat, |q: int| s[0].dir);
        let tail_stm = stm_of(s.drop_first());
        assert(stm_of(inverse_spec(s)) == inv_dirs(tail_stm) + Seq::new(
            s[0].amt as nat,
            |q: int| s[0].dir.flip_spec(),
        ));
        assert(stm_of(s) == head_rep + tail_stm);
        assert(stm_of(inverse_spec(s)) =~= inv_dirs(stm_of(s))) by {
            let whole = head_rep + tail_stm;
            assert forall|i: int| 0 <= i < whole.len() implies inv_dirs(whole)[i] == (inv_dirs(
                tail_stm,
            ) + Seq::new(s[0].amt as nat, |q: int| s[0].dir.flip_spec()))[i] by {
                if i < tail_stm.len() {
                    assert(whole[whole.len() - 1 - i] == tail_stm[tail_stm.len() - 1 - i]);
                } else {
                    assert(whole[whole.len() - 1 - i] == head_rep[whole.len() - 1 - i]);
                    assert(whole[whole.len() - 1 - i] == s[0].dir);
                }
            }
        }
    }
}

/// Undoing an undo: inverting single-tile moves twice gives them back.
pub proof fn lemma_inv_dirs_involution(ds: Seq<Dir>)
    ensures
        inv_dirs(inv_dirs(ds)) == ds,
{
    assert(inv_dirs(inv_dirs(ds)) =~= ds) by {
        assert forall|i: int| 0 <= i < ds.len() implies inv_dirs(inv_dirs(ds))[i] == ds[i] by {
            assert(inv_dirs(ds)[ds.len() - 1 - i] == ds[i].flip_spec());
        }
    }
}

/// Summing from the front: the total is the first amount plus the rest.
proof fn lemma_sum_first(s: Seq<TileMove>)
    requires
        s.len() > 0,
    ensures
        sum_amts(s) == s[0].amt + sum_amts(s.drop_first()),
    decreases s.len(),
{
    if s.len() == 1 {
        assert(s.drop_last() =~= Seq::<TileMove>::empty());
        assert(s.drop_first() =~= Seq::<TileMove>::empty());
    } else {
        lemma_sum_first(s.drop_last());
        assert(s.drop_last().drop_first() =~= s.drop_first().drop_last());
        assert(s.drop_last()[0] == s[0]);
        assert(s.drop_first().last() == s.last());
    }
}

/// An ordered list of moves, the library's move-sequence value.
///
/// The well-formedness bound keeps every per-metric length computation
/// inside `u64` arithmetic.
#[derive(Debug)]
pub struct MoveSeq {
    moves: Vec<TileMove>,
}

impl View for MoveSeq {
    type V = Seq<TileMove>;

    closed spec fn view(&self) -> Seq<TileMove> {
        self.moves@
    }
}

impl MoveSeq {
    pub open spec fn wf(&self) -> bool {
        moves_wf(self@) && sum_amts(self@) <= MAX_TOTAL_STM
    }

    /// The empty sequence.
    pub fn empty() -> (r: MoveSeq)
        ensures
            r@ =~= Seq::<TileMove>::empty(),
            r.wf(),
    {
        let r = MoveSeq { moves: Vec::new() };
        proof {
            assert(sum_amts(r@) == 0);
        }
        r
    }

    /// Takes raw moves in, checking the well-formedness bounds: every
    /// amount at least one, total single-tile length within bounds.
    pub fn from_raw(v: Vec<TileMove>) -> (r: Result<MoveSeq, MoveSeqError>)
        ensures
            match r {
                Ok(s) => s@ == v@ && s.wf(),
                Err(MoveSeqError::ZeroAmount) => !moves_wf(v@),
                Err(MoveSeqError::TooLong) => moves_wf(v@) && sum_amts(v@) > MAX_TOTAL_STM,
            },
    {
        let n = v.len();
        let mut total: u64 = 0;
        let mut i: usize = 0;
        while i < n
            invariant
                0 <= i <= n == v@.len(),
                moves_wf(v@.subrange(0, i as int)),
                total == sum_amts(v@.subrange(0, i as int)),
                total <= MAX_TOTAL_STM,
            decreases n - i,
        {
            let m = v[i];
            proof {
                assert(v@.subrange(0, i as int + 1).drop_last() =~= v@.subrange(0, i as int));
                assert(v@.subrange(0, i as int + 1).last() == m);
            }
            if m.amt == 0 {
                proof {
                    assert(!move_wf(v@[i as int]));
                }
                return Err(MoveSeqError::ZeroAmount);
            }
            if m.amt > MAX_TOTAL_STM - total {
                proof {
                    assert(sum_amts(v@.subrange(0, i as int + 1)) > MAX_TOTAL_STM);
                    lemma_sum_amts_prefix(v@, i as int + 1);
                    if !moves_wf(v@) {
                    } else {
                        assert(sum_amts(v@) > MAX_TOTAL_STM);
                    }
                }
                if has_zero_amount(&v, i + 1) {
                    return Err(MoveSeqError::ZeroAmount);
                }
                proof {
                    assert(moves_wf(v@)) by {
                        assert forall|j: int| 0 <= j < v@.len() implies move_wf(
                            #[trigger] v@[j],
                        ) by {
                            if j < i {
                                assert(v@.subrange(0, i as int)[j] == v@[j]);
                            } else if j == i {
                                assert(v@[j] == m);
                            }
                        }
                    }
                }
                return Err(MoveSeqError::TooLong);
            }
            total = total + m.amt;
            i = i + 1;
        }
        proof {
            assert(v@.subrange(0, n as int) =~= v@);
        }
        Ok(MoveSeq { moves: v })
    }

    /// The moves, in order.
    pub fn moves(&self) -> (r: &Vec<TileMove>)
        ensures
            r@ == self@,
    {
        &self.moves
    }

    /// The length of the sequence under `m`.
    pub fn len_metric(&self, m: Metric) -> (r: u64)
        requires
            self.wf(),
        ensures
            r == len_of(self@, m),
    {
        match m {
            Metric::Mtm => self.moves.len() as u64,
            Metric::Stm => {
                let n = self.moves.len();
                let mut total: u64 = 0;
                let mut i: usize = 0;
                while i < n
                    invariant
                        0 <= i <= n == self@.len(),
                        total == sum_amts(self@.subrange(0, i as int)),
                        sum_amts(self@) <= MAX_TOTAL_STM,
                    decreases n - i,
                {
                    proof {
                        assert(self@.subrange(0, i as int + 1).drop_last() =~= self@.subrange(
                            0,
                            i as int,
                        ));
                        assert(self@.subrange(0, i as int + 1).last() == self@[i as int]);
                        lemma_sum_amts_prefix(self@, i as int + 1);
                        lemma_sum_amts_nonneg(self@.subrange(0, i as int));
                    }
                    total = total + self.moves[i].amt;
                    i = i + 1;
                }
                proof {
                    assert(self@.subrange(0, n as int) =~= self@);
                }
                total
            },
        }
    }

    /// The sequence that undoes this one: moves reversed, directions
    /// flipped, lengths kept under both metrics.
    pub fn inverse(&self) -> (r: MoveSeq)
        requires
            self.wf(),
        ensures
            r@ == inverse_spec(self@),
            r.wf(),
            len_of(r@, Metric::Stm) == len_of(self@, Metric::Stm),
            len_of(r@, Metric::Mtm) == len_of(self@, Metric::Mtm),
    {
        let n = self.moves.len();
        let mut out: Vec<TileMove> = Vec::new();
        let mut i: usize = 0;
        while i < n
            invariant
                0 <= i <= n == self@.len(),
                out@ =~= inverse_spec(self@).subrange(0, i as int),
            decreases n - i,
        {
            let m = self.moves[n - 1 - i];
            out.push(TileMove { dir: m.dir.flip(), amt: m.amt });
            proof {
                assert(out@ =~= inverse_spec(self@).subrange(0, i as int + 1));
            }
            i = i + 1;
        }
        proof {
            assert(out@ =~= inverse_spec(self@));
            lemma_inverse_sum(self@);
        }
        MoveSeq { moves: out }
    }

    /// This sequence followed by `other`. Fails only when the combined
    /// single-tile length leaves the supported bound.
    pub fn concat(&self, other: &MoveSeq) -> (r: Result<MoveSeq, MoveSeqError>)
        requires
            self.wf(),
            other.wf(),
        ensures
            match r {
                Ok(s) => s@ == self@ + other@ && s.wf(),
                Err(_) => sum_amts(self@ + other@) > MAX_TOTAL_STM,
            },
    {
        proof {
            lemma_sum_amts_concat(self@, other@);
            lemma_sum_amts_nonneg(self@);
            lemma_sum_amts_nonneg(other@);
        }
        let a = self.len_metric(Metric::Stm);
        let b = other.len_metric(Metric::Stm);
        if b > MAX_TOTAL_STM - a {
            return Err(MoveSeqError::TooLong);
        }
        let mut out: Vec<TileMove> = Vec::new();
        let mut i: usize = 0;
        let n = self.moves.len();
        while i < n
            invariant
                0 <= i <= n == self@.len(),
                out@ =~= self@.subrange(0, i as int),
            decreases n - i,
        {
            out.push(self.moves[i]);
            proof {
                assert(out@ =~= self@.subrange(0, i as int + 1));
            }
            i = i + 1;
        }
        let k = other.moves.len();
        let mut j: usize = 0;
        while j < k
            invariant
                0 <= j <= k == other@.len(),
                out@ =~= self@ + other@.subrange(0, j as int),
            decreases k - j,
        {
            out.push(other.moves[j]);
            proof {
                assert(out@ =~= self@ + other@.subrange(0, j as int + 1));
            }
            j = j + 1;
        }
        proof {
            assert(out@ =~= self@ + other@);
        }
        Ok(MoveSeq { moves: out })
    }

    /// The sub-sequence spanning `[start, end)` in the units of `m`.
    ///
    /// Under the multi-tile metric the result is the move list's
    /// subrange; under the single-tile metric it spans exactly the
    /// single-tile moves `start` to `end`, splitting boundary moves.
    /// Fails exactly on a backwards or out-of-range window.
    pub fn slice_metric(&self, m: Metric, start: u64, end: u64) -> (r: Result<
        MoveSeq,
        SliceError,
    >)
        requires
            self.wf(),
        ensures
            match r {
                Ok(t) => {
                    &&& start <= end <= len_of(self@, m)
                    &&& t.wf()
                    &&& len_of(t@, m) == end - start
                    &&& (m == Metric::Mtm ==> t@ == self@.subrange(start as int, end as int))
                    &&& (m == Metric::Stm ==> stm_of(t@) == stm_of(self@).subrange(
                        start as int,
                        end as int,
                    ))
                },
                Err(SliceError::UnorderedRange) => start > end,
                Err(SliceError::OutOfRange) => start <= end && end > len_of(self@, m),
            },
    {
        if start > end {
            return Err(SliceError::UnorderedRange);
        }
        let total = self.len_metric(m);
        if end > total {
            return Err(SliceError::OutOfRange);
        }
        match m {
            Metric::Mtm => {
                let n = self.moves.len();
                proof {
                    assert(end <= n);
                }
                let lo: usize = start as usize;
                let hi: usize = end as usize;
                let mut out: Vec<TileMove> = Vec::new();
                let mut i: usize = lo;
                proof {
                    assert(out@ =~= self@.subrange(start as int, i as int));
                }
                while i < hi
                    invariant
                        lo <= i <= hi <= self@.len(),
                        lo == start,
                        hi == end,
                        out@ =~= self@.subrange(start as int, i as int),
                    decreases hi - i,
                {
                    out.push(self.moves[i]);
                    proof {
                        assert(out@ =~= self@.subrange(start as int, i as int + 1));
                    }
                    i = i + 1;
                }
                proof {
                    assert(out@ =~= self@.subrange(start as int, end as int));
                    assert(moves_wf(out@)) by {
                        assert forall|j: int| 0 <= j < out@.len() implies move_wf(
                            #[trigger] out@[j],
                        ) by {
                            assert(out@[j] == self@[start + j]);
                        }
                    }
                    lemma_sub_sum(self@, start as int, end as int);
                    lemma_sum_amts_nonneg(out@);
                }
                Ok(MoveSeq { moves: out })
            },
            Metric::Stm => self.slice_stm(start, end),
        }
    }

    /// Single-tile-metric slicing: walks the moves, keeping the part of
    /// each that overlaps the window.
    fn slice_stm(&self, start: u64, end: u64) -> (r: Result<MoveSeq, SliceError>)
        requires
            self.wf(),
            start <= end <= sum_amts(self@),
        ensures
            match r {
                Ok(t) => {
                    &&& t.wf()
                    &&& len_of(t@, Metric::Stm) == end - start
                    &&& stm_of(t@) == stm_of(self@).subrange(start as int, end as int)
                },
                Err(_) => false,
            },
    {
        let n = self.moves.len();
        let mut out: Vec<TileMove> = Vec::new();
        let mut pos: u64 = 0;
        let mut i: usize = 0;
        proof {
            lemma_stm_of_len(self@);
            assert(stm_of(out@) =~= stm_of(self@).subrange(start as int, start as int));
        }
        while i < n && pos < end
            invariant
                0 <= i <= n == self@.len(),
                self.wf(),
                start <= end <= sum_amts(self@),
                pos == sum_amts(self@.subrange(0, i as int)),
                0 <= pos,
                stm_of(self@).len() == sum_amts(self@),
                moves_wf(out@),
                stm_of(out@) =~= stm_of(self@).subrange(start as int, clamp_spec(pos as int, start as int, end as int)),
            decreases n - i,
        {
            let m = self.moves[i];
            proof {
                assert(self@.subrange(0, i as int + 1).drop_last() =~= self@.subrange(0, i as int));
                assert(self@.subrange(0, i as int + 1).last() == m);
                lemma_sum_amts_prefix(self@, i as int + 1);
                lemma_sum_amts_nonneg(self@.subrange(0, i as int));
                lemma_stm_of_prefix_next(self@, i as int);
                lemma_stm_of_len(self@.subrange(0, i as int));
                lemma_stm_of_len(self@.subrange(0, i as int + 1));
            }
            let seg_lo: u64 = if pos < start {
                start
            } else {
                pos
            };
            let seg_hi: u64 = if pos + m.amt < end {
                pos + m.amt
            } else {
                end
            };
            if seg_hi > seg_lo {
                let ghost prev = out@;
                out.push(TileMove { dir: m.dir, amt: seg_hi - seg_lo });
                proof {
                    let whole = stm_of(self@);
                    let rep = Seq::new((seg_hi - seg_lo) as nat, |q: int| m.dir);
                    assert(stm_of(out@) == stm_of(prev) + rep) by {
                        assert(out@.drop_last() =~= prev);
                        assert(out@.last() == TileMove { dir: m.dir, amt: (seg_hi - seg_lo) as u64 });
                    }
                    assert(clamp_spec(pos as int, start as int, end as int) == seg_lo);
                    assert(stm_of(prev) == whole.subrange(start as int, seg_lo as int));
                    assert forall|q: int| seg_lo <= q < seg_hi implies whole[q] == m.dir by {
                        assert(q < stm_of(self@.subrange(0, i as int + 1)).len());
                        assert(whole[q] == stm_of(self@.subrange(0, i as int + 1))[q]) by {
                            lemma_stm_of_prefix_agree(self@, i as int + 1, q);
                        }
                    }
                    assert(stm_of(out@) =~= whole.subrange(start as int, seg_hi as int)) by {
                        assert(stm_of(prev).len() == seg_lo - start);
                        assert(rep.len() == seg_hi - seg_lo);
                        assert forall|q: int| 0 <= q < seg_hi - start implies (stm_of(prev)
                            + rep)[q] == whole.subrange(start as int, seg_hi as int)[q] by {
                            if q < seg_lo - start {
                                assert((stm_of(prev) + rep)[q] == stm_of(prev)[q]);
                                assert(stm_of(prev)[q] == whole[start + q]);
                            } else {
                                assert((stm_of(prev) + rep)[q] == rep[q - (seg_lo - start)]);
                                assert(whole[start + q] == m.dir);
                            }
                        }
                    }
                }
            }
            proof {
                lemma_sum_amts_nonneg(out@);
            }
            pos = pos + m.amt;
            i = i + 1;
            proof {
                assert(pos == sum_amts(self@.subrange(0, i as int)));
                let cl = clamp_spec(pos as int, start as int, end as int);
                if seg_hi > seg_lo {
                    assert(seg_hi == cl);
                } else {
                    assert(cl == clamp_spec(
                        sum_amts(self@.subrange(0, i as int - 1)) as int,
                        start as int,
                        end as int,
                    ));
                }
            }
        }
        proof {
            if pos < end {
                assert(i == n);
                assert(self@.subrange(0, n as int) =~= self@);
                assert(false);
            }
            assert(clamp_spec(pos as int, start as int, end as int) == end);
            assert(stm_of(out@) =~= stm_of(self@).subrange(start as int, end as int));
            lemma_stm_of_len(out@);
            lemma_sum_amts_nonneg(out@);
        }
        Ok(MoveSeq { moves: out })
    }
}

/// Scans `v` from `from` for a zero amount.
fn has_zero_amount(v: &Vec<TileMove>, from: usize) -> (r: bool)
    requires
        from <= v@.len(),
    ensures
        r == !(forall|j: int| from <= j < v@.len() ==> move_wf(#[trigger] v@[j])),
{
    let n = v.len();
    let mut i: usize = from;
    while i < n
        invariant
            from <= i <= n == v@.len(),
            forall|j: int| from <= j < i ==> move_wf(#[trigger] v@[j]),
        decreases n - i,
    {
        if v[i].amt == 0 {
            return true;
        }
        i = i + 1;
    }
    false
}

/// Clamps `x` into `[lo, hi]`.
pub open spec fn clamp_spec(x: int, lo: int, hi: int) -> int {
    if x < lo {
        lo
    } else if x > hi {
        hi
    } else {
        x
    }
}

/// The sum over a subrange is bounded by the whole.
proof fn lemma_sub_sum(s: Seq<TileMove>, a: int, b: int)
    requires
        0 <= a <= b <= s.len(),
    ensures
        sum_amts(s.subrange(a, b)) <= sum_amts(s),
{
    lemma_sum_amts_prefix(s, b);
    assert(s.subrange(0, b).subrange(a, b) =~= s.subrange(a, b));
    lemma_sub_sum_inner(s.subrange(0, b), a);
}

/// Dropping a prefix cannot increase the sum.
proof fn lemma_sub_sum_inner(s: Seq<TileMove>, a: int)
    requires
        0 <= a <= s.len(),
    ensures
        sum_amts(s.subrange(a, s.len() as int)) <= sum_amts(s),
    decreases s.len(),
{
    if a == 0 {
        assert(s.subrange(0, s.len() as int) =~= s);
    } else if a == s.len() {
        assert(s.subrange(a, s.len() as int) =~= Seq::<TileMove>::empty());
        lemma_sum_amts_nonneg(s);
    } else {
        lemma_sub_sum_inner(s.drop_last(), a);
        assert(s.subrange(a, s.len() as int).drop_last() =~= s.drop_last().subrange(
            a,
            s.len() - 1,
        ));
        assert(s.subrange(a, s.len() as int).last() == s.last());
    }
}

/// Expanding one more move appends its repetition to the expansion.
proof fn lemma_stm_of_prefix_next(s: Seq<TileMove>, i: int)
    requires
        0 <= i < s.len(),
    ensures
        stm_of(s.subrange(0, i + 1)) == stm_of(s.subrange(0, i)) + Seq::new(
            s[i].amt as nat,
            |q: int| s[i].dir,
        ),
{
    assert(s.subrange(0, i + 1).drop_last() =~= s.subrange(0, i));
    assert(s.subrange(0, i + 1).last() == s[i]);
}

/// The expansion of a prefix agrees with the whole expansion.
proof fn lemma_stm_of_prefix_agree(s: Seq<TileMove>, i: int, q: int)
    requires
        0 <= i <= s.len(),
        0 <= q < stm_of(s.subrange(0, i)).len(),
    ensures
        stm_of(s)[q] == stm_of(s.subrange(0, i))[q],
    decreases s.len() - i,
{
    if i < s.len() {
        lemma_stm_of_prefix_next(s, i);
        lemma_stm_of_prefix_agree(s, i + 1, q);
    } else {
        assert(s.subrange(0, i) =~= s);
    }
}

} // verus!
